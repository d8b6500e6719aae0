use vstd::prelude::*;

verus! {

/// A key press the run loop cares about: only escape terminates it.
#[derive(Debug, Clone, Copy, PartialEq, Eq, Structural)]
pub enum Key {
    Escape,
    Other,
}

/// What the window/event source reports, one event at a time.
#[derive(Debug, Clone, Copy, PartialEq, Eq, Structural)]
pub enum Event {
    CloseRequested,
    KeyPressed(Key),
    Resized(u32, u32),
    ScaleFactorChanged(u32, u32),
    RedrawRequested,
    AllEventsProcessed,
}

/// What the run loop must do in response to one event.
#[derive(Debug, Clone, Copy, PartialEq, Eq, Structural)]
pub enum Step {
    /// Terminate the run loop.
    Exit,
    /// The target dimensions changed: reconfigure the surface to the stored
    /// width and height before the next frame.
    Reconfigure,
    /// Render one frame, applying `Recovery` to any acquisition failure.
    Render,
    /// All pending events are processed: request another redraw.
    RequestRedraw,
    /// Nothing to do.
    Ignore,
}

/// The error signal an image acquisition can report.
#[derive(Debug, Clone, Copy, PartialEq, Eq, Structural)]
pub enum SurfaceError {
    Lost,
    Outdated,
    OutOfMemory,
    Timeout,
}

/// What to do about a failed frame.
#[derive(Debug, Clone, Copy, PartialEq, Eq, Structural)]
pub enum Recovery {
    /// Transient: reconfigure the surface to the stored dimensions and skip
    /// the frame.
    Reconfigure,
    /// Fatal resource exhaustion: terminate the run loop.
    Exit,
    /// The presentation layer is busy: log it and skip the frame.
    SkipFrame,
}

/// The decisions of the frame renderer, over the dimensions the presentable
/// surface is configured to. The device calls those decisions drive happen
/// at the caller's side; this state machine is what chooses them.
#[derive(Debug, Clone, Copy, PartialEq, Eq, Structural)]
pub struct RenderControl {
    pub width: u32,
    pub height: u32,
}

impl RenderControl {
    pub fn new(width: u32, height: u32) -> (c: Self)
        ensures
            c.width == width,
            c.height == height,
    {
        Self { width, height }
    }

    /// Take new target dimensions: a dimension of zero leaves the stored
    /// configuration untouched (and asks for no reconfiguration), anything
    /// else replaces it. Returns whether the surface must be reconfigured.
    pub fn resize(&mut self, width: u32, height: u32) -> (reconfigure: bool)
        ensures
            reconfigure == (width > 0 && height > 0),
            reconfigure ==> final(self).width == width && final(self).height == height,
            !reconfigure ==> *final(self) == *old(self),
    {
        if width > 0 && height > 0 {
            self.width = width;
            self.height = height;
            true
        } else {
            false
        }
    }

    /// Map one event to the run loop's next step: close or escape ends the
    /// loop; new dimensions are taken over as `resize` does; a redraw
    /// request renders; once all events are processed another redraw is
    /// requested, keeping the loop poll-driven.
    pub fn handle_event(&mut self, event: &Event) -> (step: Step)
        ensures
            match *event {
                Event::CloseRequested => step == Step::Exit && *final(self) == *old(self),
                Event::KeyPressed(key) => step == (if key == Key::Escape {
                    Step::Exit
                } else {
                    Step::Ignore
                }) && *final(self) == *old(self),
                Event::Resized(w, h) | Event::ScaleFactorChanged(w, h) => if w > 0 && h > 0 {
                    &&& step == Step::Reconfigure
                    &&& final(self).width == w
                    &&& final(self).height == h
                } else {
                    step == Step::Ignore && *final(self) == *old(self)
                },
                Event::RedrawRequested => step == Step::Render && *final(self) == *old(self),
                Event::AllEventsProcessed => step == Step::RequestRedraw && *final(self) == *old(
                    self,
                ),
            },
    {
        match event {
            Event::CloseRequested => Step::Exit,
            Event::KeyPressed(Key::Escape) => Step::Exit,
            Event::KeyPressed(Key::Other) => Step::Ignore,
            Event::Resized(w, h) | Event::ScaleFactorChanged(w, h) => {
                if self.resize(*w, *h) {
                    Step::Reconfigure
                } else {
                    Step::Ignore
                }
            },
            Event::RedrawRequested => Step::Render,
            Event::AllEventsProcessed => Step::RequestRedraw,
        }
    }

    /// The acquisition-failure policy: a lost or outdated surface is
    /// reconfigured and the frame skipped, exhaustion ends the run loop,
    /// and a timeout only skips the frame.
    pub fn on_surface_error(&self, error: &SurfaceError) -> (r: Recovery)
        ensures
            r == match *error {
                SurfaceError::Lost | SurfaceError::Outdated => Recovery::Reconfigure,
                SurfaceError::OutOfMemory => Recovery::Exit,
                SurfaceError::Timeout => Recovery::SkipFrame,
            },
    {
        match error {
            SurfaceError::Lost | SurfaceError::Outdated => Recovery::Reconfigure,
            SurfaceError::OutOfMemory => Recovery::Exit,
            SurfaceError::Timeout => Recovery::SkipFrame,
        }
    }
}

} // verus!
