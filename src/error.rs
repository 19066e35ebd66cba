use vstd::prelude::*;

verus! {

/// Error raised while turning a scene description into renderable objects.
/// It carries a message that names the offending object or field.
#[derive(Debug)]
pub struct SceneParseError {
    message: String,
}

impl View for SceneParseError {
    type V = Seq<char>;

    /// An error is seen as its message.
    closed spec fn view(&self) -> Seq<char> {
        self.message@
    }
}

impl SceneParseError {
    /// Creates an error with the given message.
    pub fn new(message: String) -> (r: SceneParseError)
        ensures
            r@ == message@,
    {
        SceneParseError { message }
    }

    /// Returns the message of this error, as shown to the user.
    pub fn message(&self) -> (r: &str)
        ensures
            r@ == self@,
    {
        self.message.as_str()
    }
}

} // verus!
