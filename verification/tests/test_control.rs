use san::renderer::{Event, Key, Recovery, RenderControl, Step, SurfaceError};

#[test]
fn test_resize_zero_dimension_noop() {
    let mut control = RenderControl::new(800, 600);

    assert!(!control.resize(0, 100));
    assert_eq!((control.width, control.height), (800, 600));

    assert!(!control.resize(100, 0));
    assert_eq!((control.width, control.height), (800, 600));

    assert!(!control.resize(0, 0));
    assert_eq!((control.width, control.height), (800, 600));

    assert!(control.resize(1024, 768));
    assert_eq!((control.width, control.height), (1024, 768));
}

#[test]
fn test_close_and_escape_exit() {
    let mut control = RenderControl::new(800, 600);

    assert_eq!(control.handle_event(&Event::CloseRequested), Step::Exit);
    assert_eq!(control.handle_event(&Event::KeyPressed(Key::Escape)), Step::Exit);
    assert_eq!(control.handle_event(&Event::KeyPressed(Key::Other)), Step::Ignore);
}

#[test]
fn test_resize_events_reconfigure() {
    let mut control = RenderControl::new(800, 600);

    assert_eq!(control.handle_event(&Event::Resized(640, 480)), Step::Reconfigure);
    assert_eq!((control.width, control.height), (640, 480));

    assert_eq!(control.handle_event(&Event::Resized(0, 480)), Step::Ignore);
    assert_eq!((control.width, control.height), (640, 480));

    assert_eq!(
        control.handle_event(&Event::ScaleFactorChanged(1280, 960)),
        Step::Reconfigure
    );
    assert_eq!((control.width, control.height), (1280, 960));

    assert_eq!(control.handle_event(&Event::ScaleFactorChanged(1280, 0)), Step::Ignore);
    assert_eq!((control.width, control.height), (1280, 960));
}

#[test]
fn test_redraw_flow() {
    let mut control = RenderControl::new(800, 600);

    assert_eq!(control.handle_event(&Event::RedrawRequested), Step::Render);
    assert_eq!(control.handle_event(&Event::AllEventsProcessed), Step::RequestRedraw);
}

#[test]
fn test_surface_error_policy() {
    let control = RenderControl::new(800, 600);

    assert_eq!(control.on_surface_error(&SurfaceError::Lost), Recovery::Reconfigure);
    assert_eq!(control.on_surface_error(&SurfaceError::Outdated), Recovery::Reconfigure);
    assert_eq!(control.on_surface_error(&SurfaceError::OutOfMemory), Recovery::Exit);
    assert_eq!(control.on_surface_error(&SurfaceError::Timeout), Recovery::SkipFrame);
}
