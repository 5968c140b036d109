use vstd::prelude::*;

verus! {

/// A token produced by the scanner: the category of the accept state that
/// ended the match, and the text that was consumed.
#[derive(Debug, Clone, PartialEq, Eq)]
pub struct Token {
    pub token_type: String,
    pub lexeme: String,
}

impl Token {
    /// The pair (category, lexeme) as character sequences.
    pub open spec fn view(&self) -> (Seq<char>, Seq<char>) {
        (self.token_type@, self.lexeme@)
    }

    pub fn new(token_type: String, lexeme: String) -> (r: Token)
        ensures
            r.token_type@ == token_type@,
            r.lexeme@ == lexeme@,
    {
        Token { token_type, lexeme }
    }
}

} // verus!
