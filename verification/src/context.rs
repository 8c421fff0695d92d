use vstd::prelude::*;

verus! {

/// The user interfaces the application can drive.
#[derive(Clone, Copy, PartialEq, Eq, Structural, Debug)]
pub enum UIType {
    Terminal,
    Gui,
    No,
}

/// The execution contexts a user interface needs. The plain context runs
/// work directly. The show-image context must run it inside the windowing
/// event loop, which only the application shell around this library can
/// provide.
#[derive(Clone, Copy, PartialEq, Eq, Structural, Debug)]
pub enum Context {
    Plain,
    ShowImage,
}

impl Context {
    /// Runs a piece of work in this context and hands back its outcome. The
    /// plain context needs nothing around the call; the show-image context
    /// expects the application shell to have entered the windowing event
    /// loop around it.
    pub fn run<F: FnOnce() -> Result<(), String>>(&self, f: F) -> (r: Result<(), String>)
        requires
            call_requires(f, ()),
        ensures
            call_ensures(f, (), r),
    {
        match self {
            Context::Plain => f(),
            Context::ShowImage => f(),
        }
    }
}

/// The context a chosen interface needs: the windowed interface needs the
/// event-loop context, every other one the plain context.
pub fn create_context(ui_type: UIType) -> (r: Result<Context, String>)
    ensures
        r is Ok,
        r matches Ok(c) ==> c == (match ui_type {
            UIType::Gui => Context::ShowImage,
            _ => Context::Plain,
        }),
{
    match ui_type {
        UIType::Gui => Ok(Context::ShowImage),
        _ => Ok(Context::Plain),
    }
}

} // verus!
