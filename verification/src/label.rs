use vstd::prelude::*;
use vstd::string::*;
use crate::MAX_LABEL;
use crate::errors::GraphError;
use crate::text::{
    is_ws, is_name_char, all_digits, dec_text, dec_value, str_chars, name_char_exec, ws_exec,
    push_dec, parse_dec, lemma_dec_text_digits, lemma_dec_round_trip, lemma_dec_value_nonneg,
};

verus! {

/// The name on an edge.  Labels are compact: a single designated
/// character, an ordinal index, or a short inline string of at most
/// [`MAX_LABEL`] name characters, stored padded with spaces and without
/// heap allocation.
#[derive(Debug, Clone, Copy, PartialEq, Eq, PartialOrd, Ord, Hash)]
pub enum Label {
    /// A single designated character that is not a name character.
    Greek(char),
    /// An ordinal attribute, rendered as `@` and a decimal index.
    Alpha(usize),
    /// A short inline name, padded on the right with spaces.
    Str([char; MAX_LABEL]),
}

/// How many characters a padded name holds before its first space.
pub open spec fn str_len(s: Seq<char>) -> int
    decreases s.len(),
{
    if s.len() == 0 {
        0
    } else if s[0] == ' ' {
        0
    } else {
        1 + str_len(s.skip(1))
    }
}

/// A well-formed padded name: name characters, then only spaces.
pub open spec fn valid_str(s: Seq<char>) -> bool {
    &&& s.len() == MAX_LABEL
    &&& 1 <= str_len(s) <= MAX_LABEL
    &&& forall|i: int| 0 <= i < str_len(s) ==> is_name_char(s[i])
    &&& forall|i: int| str_len(s) <= i < s.len() ==> s[i] == ' '
}

impl Label {
    /// Which values of each variant the constructors produce.
    pub open spec fn valid(&self) -> bool {
        match self {
            Label::Greek(c) => !is_name_char(*c) && *c != '@' && !is_ws(*c),
            Label::Alpha(_) => true,
            Label::Str(a) => valid_str(a@),
        }
    }

    /// Canonical text of the label.
    pub open spec fn text(&self) -> Seq<char> {
        match self {
            Label::Greek(c) => seq![*c],
            Label::Alpha(i) => seq!['@'] + dec_text(*i as nat),
            Label::Str(a) => a@.take(str_len(a@)),
        }
    }
}

/// Whether the text `t` decodes to the label `l`.  Alpha indexes accept
/// redundant leading zeroes, so decoding is stated as a relation; every
/// text decodes to at most one label.
pub open spec fn label_matches(t: Seq<char>, l: Label) -> bool {
    l.valid() && match l {
        Label::Greek(c) => t == seq![c],
        Label::Alpha(i) => t.len() >= 2 && t[0] == '@' && all_digits(t.skip(1)) && dec_value(
            t.skip(1),
        ) == i,
        Label::Str(a) => t == a@.take(str_len(a@)),
    }
}

pub proof fn lemma_str_len_bounds(s: Seq<char>)
    ensures
        0 <= str_len(s) <= s.len(),
    decreases s.len(),
{
    if s.len() > 0 && s[0] != ' ' {
        lemma_str_len_bounds(s.skip(1));
    }
}

/// If the first `i` characters are non-spaces and the next one (if any)
/// is a space, the measured name length is exactly `i`.
pub proof fn lemma_str_len_char(s: Seq<char>, i: int)
    requires
        0 <= i <= s.len(),
        forall|k: int| 0 <= k < i ==> s[k] != ' ',
        i == s.len() || s[i] == ' ',
    ensures
        str_len(s) == i,
    decreases i,
{
    if i == 0 {
        if s.len() > 0 {
            assert(s[0] == ' ');
        }
    } else {
        assert(s[0] != ' ');
        assert(forall|k: int| 0 <= k < i - 1 ==> s.skip(1)[k] == s[k + 1] && s[k + 1] != ' ');
        if i - 1 < s.skip(1).len() {
            assert(s.skip(1)[i - 1] == s[i]);
        }
        lemma_str_len_char(s.skip(1), i - 1);
    }
}

/// The canonical text of every valid label decodes back to it.
pub proof fn lemma_label_round_trip(l: Label)
    requires
        l.valid(),
    ensures
        label_matches(l.text(), l),
{
    match l {
        Label::Greek(_) => {},
        Label::Alpha(i) => {
            lemma_dec_text_digits(i as nat);
            lemma_dec_round_trip(i as nat);
            assert(l.text().skip(1) =~= dec_text(i as nat));
        },
        Label::Str(_) => {},
    }
}

/// A text decodes to at most one label.
pub proof fn lemma_label_match_unique(t: Seq<char>, l1: Label, l2: Label)
    requires
        label_matches(t, l1),
        label_matches(t, l2),
    ensures
        l1 == l2,
{
    match l1 {
        Label::Greek(c1) => {
            match l2 {
                Label::Greek(c2) => {
                    assert(t[0] == c1 && t[0] == c2);
                },
                Label::Alpha(_) => {},
                Label::Str(a2) => {
                    lemma_str_len_bounds(a2@);
                    assert(t[0] == a2@[0] && is_name_char(a2@[0]) && t[0] == c1);
                },
            }
        },
        Label::Alpha(i1) => {
            match l2 {
                Label::Greek(_) => {},
                Label::Alpha(_) => {},
                Label::Str(a2) => {
                    lemma_str_len_bounds(a2@);
                    assert(t[0] == a2@[0] && is_name_char(a2@[0]) && t[0] == '@');
                },
            }
        },
        Label::Str(a1) => {
            lemma_str_len_bounds(a1@);
            assert(t[0] == a1@[0] && is_name_char(a1@[0]));
            match l2 {
                Label::Greek(c2) => {
                    assert(t[0] == c2);
                },
                Label::Alpha(_) => {
                    assert(t[0] == '@');
                },
                Label::Str(a2) => {
                    lemma_str_len_bounds(a2@);
                    assert(t.len() == str_len(a1@) && t.len() == str_len(a2@));
                    assert forall|i: int| 0 <= i < MAX_LABEL implies a1@[i] == a2@[i] by {
                        if i < t.len() {
                            assert(a1@[i] == t[i] && a2@[i] == t[i]);
                        } else {
                            assert(a1@[i] == ' ' && a2@[i] == ' ');
                        }
                    }
                    assert(a1 =~= a2);
                },
            }
        },
    }
}

/// No valid label decodes from `t` when `t` fits none of the three forms.
proof fn lemma_no_label(t: Seq<char>)
    requires
        !(t.len() == 1 && !is_name_char(t[0]) && t[0] != '@' && !is_ws(t[0])),
        !(t.len() >= 2 && t[0] == '@' && all_digits(t.skip(1)) && dec_value(t.skip(1))
            <= usize::MAX),
        !(1 <= t.len() <= MAX_LABEL && (forall|i: int| 0 <= i < t.len() ==> is_name_char(t[i]))),
    ensures
        forall|l: Label| !label_matches(t, l),
{
    assert forall|l: Label| !label_matches(t, l) by {
        match l {
            Label::Greek(_) => {},
            Label::Alpha(_) => {
                if label_matches(t, l) {
                    lemma_dec_value_nonneg(t.skip(1));
                }
            },
            Label::Str(a) => {
                if label_matches(t, l) {
                    lemma_str_len_bounds(a@);
                    assert(forall|i: int| 0 <= i < t.len() ==> t[i] == a@[i]);
                }
            },
        }
    }
}

fn char_at_or_space(t: &Vec<char>, from: usize, to: usize, k: usize) -> (r: char)
    requires
        from <= to <= t@.len(),
    ensures
        r == if from + k < to {
            t@[from + k]
        } else {
            ' '
        },
{
    if k < to - from {
        t[from + k]
    } else {
        ' '
    }
}

/// Decodes the characters between `from` and `to` as a label: the
/// unique label that the text decodes to, or `None` when there is none.
#[verifier::loop_isolation(false)]
pub fn parse_label_range(t: &Vec<char>, from: usize, to: usize) -> (r: Option<Label>)
    requires
        from <= to <= t@.len(),
    ensures
        ({
            let s = t@.subrange(from as int, to as int);
            match r {
                Some(l) => label_matches(s, l),
                None => forall|l: Label| !label_matches(s, l),
            }
        }),
{
    let ghost s = t@.subrange(from as int, to as int);
    if from == to {
        proof {
            lemma_no_label(s);
        }
        return None;
    }
    let c0 = t[from];
    if c0 == '@' {
        if to - from >= 2 {
            match parse_dec(t, from + 1, to) {
                Some(v) => {
                    proof {
                        assert(s[0] == c0);
                        assert(t@.subrange(from + 1, to as int) =~= s.skip(1));
                    }
                    return Some(Label::Alpha(v));
                },
                None => {
                    proof {
                        assert(s[0] == c0);
                        assert(!is_name_char('@'));
                        assert(t@.subrange(from + 1, to as int) =~= s.skip(1));
                        lemma_no_label(s);
                    }
                    return None;
                },
            }
        } else {
            proof {
                assert(s[0] == c0);
                assert(!is_name_char('@'));
                lemma_no_label(s);
            }
            return None;
        }
    }
    if to - from == 1 && !name_char_exec(c0) {
        if ws_exec(c0) {
            proof {
                assert(s[0] == c0);
                lemma_no_label(s);
            }
            return None;
        }
        let l = Label::Greek(c0);
        proof {
            assert(s =~= seq![c0]);
        }
        return Some(l);
    }
    // A short inline name, or nothing.
    if to - from > MAX_LABEL {
        proof {
            lemma_no_label(s);
        }
        return None;
    }
    let mut i: usize = from;
    while i < to
        invariant
            from <= i <= to <= t@.len(),
            s == t@.subrange(from as int, to as int),
            forall|k: int| 0 <= k < i - from ==> is_name_char(s[k]),
        decreases to - i,
    {
        if !name_char_exec(t[i]) {
            proof {
                assert(s[i - from] == t@[i as int]);
                if s.len() == 1 {
                    assert(s[0] == c0);
                    assert(false);
                }
                lemma_no_label(s);
            }
            return None;
        }
        i = i + 1;
    }
    let a: [char; MAX_LABEL] = [
        char_at_or_space(t, from, to, 0),
        char_at_or_space(t, from, to, 1),
        char_at_or_space(t, from, to, 2),
        char_at_or_space(t, from, to, 3),
        char_at_or_space(t, from, to, 4),
        char_at_or_space(t, from, to, 5),
        char_at_or_space(t, from, to, 6),
        char_at_or_space(t, from, to, 7),
    ];
    let l = Label::Str(a);
    proof {
        assert forall|k: int|
            0 <= k < s.len() implies (#[trigger] a@[k]) == s[k] && is_name_char(a@[k]) by {
            assert(s[k] == t@[from + k]);
            assert(is_name_char(s[k]));
        }
        assert forall|k: int| 0 <= k < s.len() implies (#[trigger] a@[k]) != ' ' by {
            assert(is_name_char(a@[k]));
            assert(' ' as u32 == 32);
        }
        assert(forall|k: int| s.len() <= k < MAX_LABEL ==> a@[k] == ' ');
        lemma_str_len_char(a@, s.len() as int);
        assert(a@.take(str_len(a@)) =~= s);
        assert(valid_str(a@));
    }
    Some(l)
}

/// How many characters stand before the first space of a padded name.
fn str_name_len(a: &[char; MAX_LABEL]) -> (r: usize)
    ensures
        r == str_len(a@),
        r <= MAX_LABEL,
{
    let mut i: usize = 0;
    while i < MAX_LABEL && a[i] != ' '
        invariant
            i <= MAX_LABEL,
            a@.len() == MAX_LABEL,
            forall|k: int| 0 <= k < i ==> a@[k] != ' ',
        decreases MAX_LABEL - i,
    {
        i = i + 1;
    }
    proof {
        lemma_str_len_char(a@, i as int);
    }
    i
}

impl Label {
    /// Decodes a label from text; `FormatMismatch` when the text fits
    /// no valid label.
    pub fn parse(s: &str) -> (r: Result<Label, GraphError>)
        ensures
            ({
                match r {
                    Ok(l) => label_matches(s@, l),
                    Err(e) => e == GraphError::FormatMismatch && (forall|l: Label|
                        !label_matches(s@, l)),
                }
            }),
    {
        let t = str_chars(s);
        let n = t.len();
        let r = parse_label_range(&t, 0, n);
        proof {
            assert(t@.subrange(0, n as int) =~= s@);
        }
        match r {
            Some(l) => Ok(l),
            None => Err(GraphError::FormatMismatch),
        }
    }

    /// Canonical text of the label.
    pub fn print(&self) -> (r: String)
        requires
            self.valid(),
        ensures
            r@ == self.text(),
    {
        let mut out = String::new();
        match self {
            Label::Greek(c) => {
                out.push(*c);
                proof {
                    assert(out@ =~= self.text());
                }
            },
            Label::Alpha(i) => {
                out.push('@');
                push_dec(&mut out, *i);
                proof {
                    assert(out@ =~= self.text());
                }
            },
            Label::Str(a) => {
                let n = str_name_len(a);
                let mut i: usize = 0;
                while i < n
                    invariant
                        i <= n,
                        n == str_len(a@),
                        n <= MAX_LABEL,
                        a@.len() == MAX_LABEL,
                        out@ == a@.take(i as int),
                    decreases n - i,
                {
                    out.push(a[i]);
                    i = i + 1;
                    proof {
                        assert(out@ =~= a@.take(i as int));
                    }
                }
                proof {
                    assert(out@ =~= self.text());
                }
            },
        }
        out
    }
}

} // verus!
