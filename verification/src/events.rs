//! Host events and the work the application does for each of them.
use vstd::prelude::*;

verus! {

/// Represents an abstraction containing all the events that can occur within
/// the window context. This functions as a lingua franca across different
/// window management systems.
pub enum WindowEvent {
    CloseRequested,
    RequestRedraw,
    UnknownOrNotImplemented,
}

/// A generic global event.
pub enum Event {
    Window(WindowEvent),
    UnknownOrNotImplemented,
}

/// A unit of work run by the application while it handles an event.
#[derive(Clone, Copy, PartialEq, Eq, Debug)]
pub enum FrameStep {
    /// The workload run for every event.
    GenericEvent,
    /// Reports that the window was asked to close.
    ReportCloseRequested,
    StartFrame,
    InitFrame,
    Update,
    BeforeRequestRedraw,
    RequestRedraw,
    AfterRequestRedraw,
    SubmitQueue,
    FinishFrame,
    /// The workload run after every window event.
    WindowEvent,
}

/// The steps of a frame, run when the window asks for a redraw.
pub open spec fn frame_steps() -> Seq<FrameStep> {
    seq![
        FrameStep::StartFrame,
        FrameStep::InitFrame,
        FrameStep::Update,
        FrameStep::BeforeRequestRedraw,
        FrameStep::RequestRedraw,
        FrameStep::AfterRequestRedraw,
        FrameStep::SubmitQueue,
        FrameStep::FinishFrame,
    ]
}

/// The steps specific to a window event.
pub open spec fn window_steps(w: WindowEvent) -> Seq<FrameStep> {
    match w {
        WindowEvent::CloseRequested => seq![FrameStep::ReportCloseRequested],
        WindowEvent::RequestRedraw => frame_steps(),
        WindowEvent::UnknownOrNotImplemented => Seq::empty(),
    }
}

/// The steps run for `event`, in order.
pub open spec fn tick_steps(event: Event) -> Seq<FrameStep> {
    seq![FrameStep::GenericEvent] + match event {
        Event::Window(w) => window_steps(w) + seq![FrameStep::WindowEvent],
        Event::UnknownOrNotImplemented => Seq::empty(),
    }
}

/// The work to do when an event arrives. In case of inmediate mode a
/// redraw request comes once per frame.
pub fn tick_plan(event: &Event) -> (r: Vec<FrameStep>)
    ensures
        r@ == tick_steps(*event),
{
    let mut steps: Vec<FrameStep> = Vec::new();
    steps.push(FrameStep::GenericEvent);
    match event {
        Event::Window(w_event) => {
            match w_event {
                WindowEvent::CloseRequested => {
                    steps.push(FrameStep::ReportCloseRequested);
                },
                WindowEvent::RequestRedraw => {
                    steps.push(FrameStep::StartFrame);
                    steps.push(FrameStep::InitFrame);
                    steps.push(FrameStep::Update);
                    steps.push(FrameStep::BeforeRequestRedraw);
                    steps.push(FrameStep::RequestRedraw);
                    steps.push(FrameStep::AfterRequestRedraw);
                    steps.push(FrameStep::SubmitQueue);
                    steps.push(FrameStep::FinishFrame);
                },
                WindowEvent::UnknownOrNotImplemented => {},
            }
            steps.push(FrameStep::WindowEvent);
        },
        Event::UnknownOrNotImplemented => {},
    }
    proof {
        assert(steps@ =~= tick_steps(*event));
    }
    steps
}

/// Every event first runs the generic workload, window events finish with
/// the window workload, and a redraw runs each frame step once, in order.
pub proof fn law_tick_order(event: Event)
    ensures
        tick_steps(event)[0] == FrameStep::GenericEvent,
        event is Window ==> tick_steps(event).last() == FrameStep::WindowEvent,
        event is UnknownOrNotImplemented ==> tick_steps(event).len() == 1,
        event == Event::Window(WindowEvent::RequestRedraw) ==> tick_steps(event).subrange(1, 9)
            == frame_steps(),
{
    if event == Event::Window(WindowEvent::RequestRedraw) {
        assert(tick_steps(event).subrange(1, 9) =~= frame_steps());
    }
}

} // verus!
