use vstd::prelude::*;

use crate::int_stream::INT_STREAM_EOF;

verus! {

/// Whether `c` is an uppercase letter, as Unicode's `Uppercase` property says.
pub uninterp spec fn uppercase(c: char) -> bool;

/// Relies on `char::is_uppercase`: whether `c` has Unicode's `Uppercase` property,
/// which depends on the character alone.
#[verifier::external_body]
fn char_is_uppercase(c: char) -> (r: bool)
    ensures
        r == uppercase(c),
{
    c.is_uppercase()
}

/// The names of token types, for messages.
pub trait Vocabulary {
    fn get_max_token_type() -> i32;

    fn get_literal_name(token_type: i32) -> String;

    fn get_symbolic_name(token_type: i32) -> String;
}

/// The literal and the symbolic name that a token name gives: a name in quotes is a
/// literal, one that starts with an uppercase letter is symbolic, any other is neither.
pub open spec fn split_name(name: Option<String>, first_upper: bool) -> (Option<String>, Option<String>) {
    match name {
        Some(s) => if s@.len() > 0 && s@[0] == '\'' {
            (Some(s), None)
        } else if first_upper {
            (None, Some(s))
        } else {
            (None, None)
        },
        None => (None, None),
    }
}

/// The larger of two lengths.
pub open spec fn max_len(x: int, y: int) -> int {
    if x >= y {
        x
    } else {
        y
    }
}

/// Literal, symbolic and display names of token types, indexed by type.
pub struct VocabularyImpl {
    literal_names: Vec<Option<String>>,
    symbolic_names: Vec<Option<String>>,
    display_names: Vec<Option<String>>,
    max_token_type: i32,
}

impl VocabularyImpl {
    pub closed spec fn literals(&self) -> Seq<Option<String>> {
        self.literal_names@
    }

    pub closed spec fn symbolics(&self) -> Seq<Option<String>> {
        self.symbolic_names@
    }

    pub closed spec fn displays(&self) -> Seq<Option<String>> {
        self.display_names@
    }

    pub closed spec fn max_type(&self) -> int {
        self.max_token_type as int
    }

    /// The name at `token_type` in `names`, where the index is in range.
    pub open spec fn entry(names: Seq<Option<String>>, token_type: i32) -> Option<String> {
        if 0 <= token_type < names.len() {
            names[token_type as int]
        } else {
            None
        }
    }

    /// The symbolic name of a type: the stored one in range, `EOF` for the end of input.
    pub open spec fn symbolic_of(&self, token_type: i32) -> Option<Seq<char>> {
        if 0 <= token_type < self.symbolics().len() {
            match self.symbolics()[token_type as int] {
                Some(s) => Some(s@),
                None => None,
            }
        } else if token_type == -1 {
            Some(seq!['E', 'O', 'F'])
        } else {
            None
        }
    }

    /// The display name of a type: the stored one, else the literal, else the symbolic.
    pub open spec fn display_of(&self, token_type: i32) -> Option<Seq<char>> {
        match Self::entry(self.displays(), token_type) {
            Some(s) => Some(s@),
            None => match Self::entry(self.literals(), token_type) {
                Some(s) => Some(s@),
                None => self.symbolic_of(token_type),
            },
        }
    }

    /// A vocabulary of the given names. The greatest token type is one below the
    /// longest of the three lists, and -1 where all are empty.
    pub fn new(
        literal_names: Vec<Option<String>>,
        symbolic_names: Vec<Option<String>>,
        display_names: Vec<Option<String>>,
    ) -> (r: VocabularyImpl)
        requires
            literal_names@.len() <= i32::MAX,
            symbolic_names@.len() <= i32::MAX,
            display_names@.len() <= i32::MAX,
        ensures
            r.literals() == literal_names@,
            r.symbolics() == symbolic_names@,
            r.displays() == display_names@,
            r.max_type() == max_len(
                display_names@.len() as int,
                max_len(literal_names@.len() as int, symbolic_names@.len() as int),
            ) - 1,
    {
        let ls = literal_names.len();
        let ss = symbolic_names.len();
        let ds = display_names.len();
        let inner = if ls >= ss {
            ls
        } else {
            ss
        };
        let longest = if ds >= inner {
            ds
        } else {
            inner
        };
        let mtt = longest as i32 - 1;
        VocabularyImpl { literal_names, symbolic_names, display_names, max_token_type: mtt }
    }

    /// A vocabulary from one list of token names: each name is the display name of its
    /// type, and also its literal name where it is in quotes, or its symbolic name
    /// where it starts with an uppercase letter.
    pub fn from_token_names(token_names: Vec<Option<String>>) -> (r: VocabularyImpl)
        requires
            token_names@.len() <= i32::MAX,
            forall|i: int|
                0 <= i < token_names@.len() && (#[trigger] token_names@[i]).is_some()
                    ==> token_names@[i].unwrap()@.len() > 0,
        ensures
            r.displays() == token_names@,
            r.literals().len() == token_names@.len(),
            r.symbolics().len() == token_names@.len(),
            r.max_type() == token_names@.len() - 1,
            forall|i: int|
                0 <= i < token_names@.len() ==> (#[trigger] r.literals()[i], r.symbolics()[i])
                    == split_name(
                    token_names@[i],
                    token_names@[i].is_some() && uppercase(token_names@[i].unwrap()@[0]),
                ),
    {
        let n = token_names.len();
        let mut literal_names: Vec<Option<String>> = Vec::new();
        let mut symbolic_names: Vec<Option<String>> = Vec::new();
        let mut i: usize = 0;
        while i < n
            invariant
                n == token_names@.len(),
                i <= n,
                forall|k: int|
                    0 <= k < token_names@.len() && (#[trigger] token_names@[k]).is_some()
                        ==> token_names@[k].unwrap()@.len() > 0,
                literal_names@.len() == i,
                symbolic_names@.len() == i,
                forall|k: int|
                    0 <= k < i ==> (#[trigger] literal_names@[k], symbolic_names@[k]) == split_name(
                        token_names@[k],
                        token_names@[k].is_some() && uppercase(token_names@[k].unwrap()@[0]),
                    ),
            decreases n - i,
        {
            let name = &token_names[i];
            let upper = match name {
                Some(s) => char_is_uppercase(s.as_str().get_char(0)),
                None => false,
            };
            let (lit, sym) = split_token_name(name, upper);
            literal_names.push(lit);
            symbolic_names.push(sym);
            i += 1;
        }
        VocabularyImpl::new(literal_names, symbolic_names, token_names)
    }

    pub fn get_max_token_type(&self) -> (r: i32)
        ensures
            r == self.max_type(),
    {
        self.max_token_type
    }

    /// The literal name of a type, where it has one.
    pub fn get_literal_name(&self, token_type: i32) -> (r: Option<String>)
        ensures
            r == Self::entry(self.literals(), token_type),
    {
        if token_type >= 0 && (token_type as usize) < self.literal_names.len() {
            return copy_name(&self.literal_names[token_type as usize]);
        }
        None
    }

    /// The symbolic name of a type, where it has one; `EOF` for the end of input.
    pub fn get_symbolic_name(&self, token_type: i32) -> (r: Option<String>)
        ensures
            match r {
                Some(s) => self.symbolic_of(token_type) == Some(s@),
                None => self.symbolic_of(token_type).is_none(),
            },
    {
        if token_type >= 0 && (token_type as usize) < self.symbolic_names.len() {
            return copy_name(&self.symbolic_names[token_type as usize]);
        }
        if token_type == INT_STREAM_EOF {
            proof {
                reveal_strlit("EOF");
            }
            return Some(String::from_str("EOF"));
        }
        None
    }

    /// The display name of a type; where it has none, its literal name, and where it
    /// has neither, its symbolic name.
    pub fn get_display_name(&self, token_type: i32) -> (r: Option<String>)
        ensures
            match r {
                Some(s) => self.display_of(token_type) == Some(s@),
                None => self.display_of(token_type).is_none(),
            },
    {
        if token_type >= 0 && (token_type as usize) < self.display_names.len() {
            if let Some(name) = &self.display_names[token_type as usize] {
                return Some(name.clone());
            }
        }
        if let Some(ln) = self.get_literal_name(token_type) {
            return Some(ln);
        }
        self.get_symbolic_name(token_type)
    }
}

/// Splits one token name into its literal and its symbolic name, given whether its
/// first character is an uppercase letter.
pub fn split_token_name(name: &Option<String>, first_upper: bool) -> (r: (
    Option<String>,
    Option<String>,
))
    ensures
        r == split_name(*name, first_upper),
{
    match name {
        Some(s) => {
            let quoted = if s.as_str().unicode_len() > 0 {
                s.as_str().get_char(0) == '\''
            } else {
                false
            };
            if quoted {
                (Some(s.clone()), None)
            } else if first_upper {
                (None, Some(s.clone()))
            } else {
                (None, None)
            }
        },
        None => (None, None),
    }
}

/// A copy of a stored name.
fn copy_name(name: &Option<String>) -> (r: Option<String>)
    ensures
        r == *name,
{
    match name {
        Some(s) => Some(s.clone()),
        None => None,
    }
}

} // verus!
