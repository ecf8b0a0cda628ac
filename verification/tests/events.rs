use engine::events::{tick_plan, Event, FrameStep, WindowEvent};

#[test]
fn redraw_runs_a_whole_frame() {
    assert_eq!(
        tick_plan(&Event::Window(WindowEvent::RequestRedraw)),
        vec![
            FrameStep::GenericEvent,
            FrameStep::StartFrame,
            FrameStep::InitFrame,
            FrameStep::Update,
            FrameStep::BeforeRequestRedraw,
            FrameStep::RequestRedraw,
            FrameStep::AfterRequestRedraw,
            FrameStep::SubmitQueue,
            FrameStep::FinishFrame,
            FrameStep::WindowEvent,
        ]
    );
}

#[test]
fn close_request_is_reported() {
    assert_eq!(
        tick_plan(&Event::Window(WindowEvent::CloseRequested)),
        vec![FrameStep::GenericEvent, FrameStep::ReportCloseRequested, FrameStep::WindowEvent]
    );
}

#[test]
fn unknown_events() {
    assert_eq!(
        tick_plan(&Event::Window(WindowEvent::UnknownOrNotImplemented)),
        vec![FrameStep::GenericEvent, FrameStep::WindowEvent]
    );
    assert_eq!(tick_plan(&Event::UnknownOrNotImplemented), vec![FrameStep::GenericEvent]);
}
