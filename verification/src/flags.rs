//! Switches for optimizations.
use vstd::prelude::*;

verus! {

/// Which optimizations are on.  All are, to begin with; what is solved does not
/// depend on them.
#[derive(Clone, Copy, Debug, PartialEq, Eq, Structural)]
pub struct Flags {
    lb_mincut: bool,
    clause_merge: bool,
    example_cover: bool,
}

impl Flags {
    pub closed spec fn mincut(&self) -> bool {
        self.lb_mincut
    }

    pub closed spec fn merge(&self) -> bool {
        self.clause_merge
    }

    pub closed spec fn cover(&self) -> bool {
        self.example_cover
    }

    /// All optimizations on.
    pub fn new() -> (f: Flags)
        ensures
            f.mincut() && f.merge() && f.cover(),
    {
        Flags { lb_mincut: true, clause_merge: true, example_cover: true }
    }

    /// The clause for a missing word is made small by a minimum cut.
    pub fn lb_mincut(&self) -> (b: bool)
        ensures
            b == self.mincut(),
    {
        self.lb_mincut
    }

    pub fn set_lb_mincut(&mut self, value: bool)
        ensures
            final(self).mincut() == value,
            final(self).merge() == old(self).merge(),
            final(self).cover() == old(self).cover(),
    {
        self.lb_mincut = value;
    }

    /// Memberships that share an input or an output set are merged.
    pub fn clause_merge(&self) -> (b: bool)
        ensures
            b == self.merge(),
    {
        self.clause_merge
    }

    pub fn set_clause_merge(&mut self, value: bool)
        ensures
            final(self).mincut() == old(self).mincut(),
            final(self).merge() == value,
            final(self).cover() == old(self).cover(),
    {
        self.clause_merge = value;
    }

    /// Only a cover of the clauses is kept as examples.
    pub fn example_cover(&self) -> (b: bool)
        ensures
            b == self.cover(),
    {
        self.example_cover
    }

    pub fn set_example_cover(&mut self, value: bool)
        ensures
            final(self).mincut() == old(self).mincut(),
            final(self).merge() == old(self).merge(),
            final(self).cover() == value,
    {
        self.example_cover = value;
    }

    /// What an override of a switch says: `1`, `true`, `on` or `yes`, or `0`,
    /// `false`, `off` or `no`, in upper or lower case.  Nothing else says anything.
    pub fn parse_flag(raw: &str) -> (r: Option<bool>)
        ensures
            r == flag_value(lower(raw@)),
    {
        let n = raw.unicode_len();
        let mut word: Vec<char> = Vec::new();
        let mut i: usize = 0;
        assert(lower(raw@).take(0) =~= word@);
        while i < n
            invariant
                n == raw@.len(),
                i <= n,
                word@ == lower(raw@).take(i as int),
            decreases n - i,
        {
            word.push(lower_char_of(raw.get_char(i)));
            assert(lower(raw@).take(i + 1) =~= lower(raw@).take(i as int).push(
                lower(raw@)[i as int],
            ));
            i = i + 1;
        }
        assert(lower(raw@).take(i as int) =~= lower(raw@));
        let w = word.as_slice();
        if is_word(w, "1") || is_word(w, "true") || is_word(w, "on") || is_word(w, "yes") {
            Some(true)
        } else if is_word(w, "0") || is_word(w, "false") || is_word(w, "off") || is_word(w, "no") {
            Some(false)
        } else {
            None
        }
    }
}

/// The letter in lower case.
pub open spec fn lower_char(c: char) -> char {
    if 'A' <= c && c <= 'Z' {
        ((c as u32 + 32) as u8) as char
    } else {
        c
    }
}

/// The text in lower case.
pub open spec fn lower(s: Seq<char>) -> Seq<char> {
    s.map_values(|c: char| lower_char(c))
}

/// What a word says of a switch.
pub open spec fn flag_value(s: Seq<char>) -> Option<bool> {
    if s == "1"@ || s == "true"@ || s == "on"@ || s == "yes"@ {
        Some(true)
    } else if s == "0"@ || s == "false"@ || s == "off"@ || s == "no"@ {
        Some(false)
    } else {
        None
    }
}

fn lower_char_of(c: char) -> (r: char)
    ensures
        r == lower_char(c),
{
    if 'A' <= c && c <= 'Z' {
        ((c as u32 + 32) as u8) as char
    } else {
        c
    }
}

/// Whether the characters are those of the word.
fn is_word(w: &[char], s: &str) -> (b: bool)
    ensures
        b == (w@ == s@),
{
    let n = s.unicode_len();
    if w.len() != n {
        return false;
    }
    let mut i: usize = 0;
    while i < n
        invariant
            n == s@.len(),
            n == w@.len(),
            i <= n,
            forall|j: int| 0 <= j < i ==> w@[j] == s@[j],
        decreases n - i,
    {
        if w[i] != s.get_char(i) {
            assert(w@[i as int] != s@[i as int]);
            return false;
        }
        i = i + 1;
    }
    assert(w@ =~= s@);
    true
}

impl Default for Flags {
    fn default() -> (f: Flags)
        ensures
            f.mincut() && f.merge() && f.cover(),
    {
        Flags::new()
    }
}

} // verus!
