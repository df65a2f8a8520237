use vstd::prelude::*;

verus! {

/// One level of a call stack: the function's name, the file it lives in,
/// an optional shortened file name and module name, and a line number
/// (0 when unknown).
#[derive(Clone, Debug)]
pub struct Frame {
    pub name: String,
    pub filename: String,
    pub short_filename: Option<String>,
    pub module: Option<String>,
    pub line: u64,
}

/// The ghost image of a `Frame`: each text field reduced to its character
/// sequence, so contracts can compare frames by content.
#[verifier::ext_equal]
pub ghost struct FrameData {
    pub name: Seq<char>,
    pub filename: Seq<char>,
    pub short_filename: Option<Seq<char>>,
    pub module: Option<Seq<char>>,
    pub line: u64,
}

impl View for Frame {
    type V = FrameData;

    open spec fn view(&self) -> FrameData {
        FrameData {
            name: self.name@,
            filename: self.filename@,
            short_filename: match self.short_filename {
                Option::Some(s) => Option::Some(s@),
                Option::None => Option::None,
            },
            module: match self.module {
                Option::Some(s) => Option::Some(s@),
                Option::None => Option::None,
            },
            line: self.line,
        }
    }
}

impl Frame {
    /// An owned copy whose fields read the same as this frame's.
    pub fn duplicate(&self) -> (r: Frame)
        ensures
            r@ == self@,
    {
        Frame {
            name: self.name.clone(),
            filename: self.filename.clone(),
            short_filename: match &self.short_filename {
                Option::Some(s) => Option::Some(s.clone()),
                Option::None => Option::None,
            },
            module: match &self.module {
                Option::Some(s) => Option::Some(s.clone()),
                Option::None => Option::None,
            },
            line: self.line,
        }
    }
}

/// One sampled snapshot of one thread: its identifier, the frames of its
/// call stack (innermost frame first, outermost caller last), whether the
/// thread was actively running, and whether it held the global
/// interpreter lock.
#[derive(Clone, Debug)]
pub struct StackTrace {
    pub thread_id: u64,
    pub frames: Vec<Frame>,
    pub active: bool,
    pub owns_gil: bool,
}

} // verus!
