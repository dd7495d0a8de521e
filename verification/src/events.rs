//! What a line of the agent's output tells the host.
use vstd::prelude::*;
use crate::text::texts;

verus! {

/// One thing that a line of the agent's output tells the host.
#[derive(Debug, PartialEq, Eq)]
pub enum AgentEvent {
    /// An entry is opened: a tool call or a message.
    NewEntry {
        vendor_id: String,
        tool: String,
        category: String,
        raw_cmd: String,
        file_paths: Vec<String>,
    },
    /// The entry of a tool call is closed.
    CloseEntry { vendor_id: String, exit_code: i32, output_lines: Vec<String> },
    /// Text is added to an entry.
    AppendToEntry { vendor_id: String, text: String },
    /// The id by which the session can be resumed.
    SessionIDAvailable(String),
    /// The session is over.
    SessionEnded { success: bool },
}

/// The model of an [`AgentEvent`].
pub enum EventView {
    NewEntry {
        vendor_id: Seq<char>,
        tool: Seq<char>,
        category: Seq<char>,
        raw_cmd: Seq<char>,
        file_paths: Seq<Seq<char>>,
    },
    CloseEntry { vendor_id: Seq<char>, exit_code: i32, output_lines: Seq<Seq<char>> },
    AppendToEntry { vendor_id: Seq<char>, text: Seq<char> },
    SessionIDAvailable(Seq<char>),
    SessionEnded { success: bool },
}

impl View for AgentEvent {
    type V = EventView;

    open spec fn view(&self) -> EventView {
        match self {
            AgentEvent::NewEntry { vendor_id, tool, category, raw_cmd, file_paths } => {
                EventView::NewEntry {
                    vendor_id: vendor_id@,
                    tool: tool@,
                    category: category@,
                    raw_cmd: raw_cmd@,
                    file_paths: texts(file_paths@),
                }
            },
            AgentEvent::CloseEntry { vendor_id, exit_code, output_lines } => EventView::CloseEntry {
                vendor_id: vendor_id@,
                exit_code: *exit_code,
                output_lines: texts(output_lines@),
            },
            AgentEvent::AppendToEntry { vendor_id, text } => EventView::AppendToEntry {
                vendor_id: vendor_id@,
                text: text@,
            },
            AgentEvent::SessionIDAvailable(id) => EventView::SessionIDAvailable(id@),
            AgentEvent::SessionEnded { success } => EventView::SessionEnded { success: *success },
        }
    }
}

/// The models of a sequence of events.
pub open spec fn views(v: Seq<AgentEvent>) -> Seq<EventView> {
    v.map_values(|e: AgentEvent| e@)
}

/// No event.
pub fn no_events() -> (r: Vec<AgentEvent>)
    ensures
        views(r@) == Seq::<EventView>::empty(),
{
    let out: Vec<AgentEvent> = Vec::new();
    assert(views(out@) =~= Seq::<EventView>::empty());
    out
}

/// The one event `e`.
pub fn one_event(e: AgentEvent) -> (r: Vec<AgentEvent>)
    ensures
        views(r@) == seq![e@],
{
    let mut out: Vec<AgentEvent> = Vec::new();
    out.push(e);
    assert(views(out@) =~= seq![e@]);
    out
}

} // verus!
