use vstd::prelude::*;
use vstd::string::{StrSliceExecFns, StringExecFns};
use crate::decimal::{all_digits, dec_value, parse_u64};
use crate::select::Popup;

verus! {

/// Whether a character is blank space around a form entry.
pub open spec fn is_blank(c: char) -> bool {
    c == ' ' || c == '\t'
}

/// `s` with the blanks at both ends removed.
pub open spec fn trimmed(s: Seq<char>) -> Seq<char>
    decreases s.len(),
{
    if s.len() > 0 && is_blank(s.first()) {
        trimmed(s.drop_first())
    } else if s.len() > 0 && is_blank(s.last()) {
        trimmed(s.drop_last())
    } else {
        s
    }
}

/// The trimmed text is the piece between the first and the last
/// non-blank character.
proof fn lemma_trimmed_core(s: Seq<char>, lo: int, hi: int)
    requires
        0 <= lo <= hi <= s.len(),
        forall|i: int| 0 <= i < lo ==> is_blank(#[trigger] s[i]),
        forall|i: int| hi <= i < s.len() ==> is_blank(#[trigger] s[i]),
        lo < hi ==> !is_blank(s[lo]) && !is_blank(s[hi - 1]),
    ensures
        trimmed(s) == s.subrange(lo, hi),
    decreases s.len(),
{
    if s.len() == 0 {
        assert(s.subrange(lo, hi) =~= s);
    } else if is_blank(s.first()) {
        let s1 = s.drop_first();
        assert(lo > 0 || lo == hi) by {
            if lo == 0 && lo < hi {
                assert(!is_blank(s[0]));
            }
        }
        if lo > 0 {
            lemma_trimmed_core(s1, lo - 1, hi - 1);
            assert(s1.subrange(lo - 1, hi - 1) =~= s.subrange(lo, hi));
        } else {
            // everything is blank
            lemma_trimmed_core(s1, 0, 0);
            assert(s1.subrange(0, 0) =~= s.subrange(lo, hi));
        }
    } else if is_blank(s.last()) {
        assert(hi < s.len()) by {
            if hi == s.len() {
                assert(lo < hi) by {
                    if lo == hi {
                        assert(is_blank(s[0]));
                    }
                }
                assert(!is_blank(s[s.len() - 1]));
            }
        }
        let s1 = s.drop_last();
        lemma_trimmed_core(s1, lo, hi);
        assert(s1.subrange(lo, hi) =~= s.subrange(lo, hi));
    } else {
        assert(lo == 0) by {
            if lo > 0 {
                assert(is_blank(s[0]));
            }
        }
        assert(hi == s.len()) by {
            if hi < s.len() {
                assert(is_blank(s[s.len() - 1]));
            }
        }
        assert(s.subrange(lo, hi) =~= s);
    }
}

/// Whether a character is blank space.
fn is_blank_char(c: char) -> (b: bool)
    ensures
        b == is_blank(c),
{
    c == ' ' || c == '\t'
}

/// Strip the blanks at both ends.
pub fn trim_blanks(s: &str) -> (t: &str)
    ensures
        t@ == trimmed(s@),
{
    let n = s.unicode_len();
    let mut lo: usize = 0;
    while lo < n && is_blank_char(s.get_char(lo))
        invariant
            n == s@.len(),
            lo <= n,
            forall|i: int| 0 <= i < lo ==> is_blank(#[trigger] s@[i]),
        decreases n - lo,
    {
        lo = lo + 1;
    }
    let mut hi: usize = n;
    while hi > lo && is_blank_char(s.get_char(hi - 1))
        invariant
            n == s@.len(),
            lo <= hi <= n,
            forall|i: int| hi <= i < n ==> is_blank(#[trigger] s@[i]),
        decreases hi,
    {
        hi = hi - 1;
    }
    proof {
        lemma_trimmed_core(s@, lo as int, hi as int);
    }
    s.substring_char(lo, hi)
}

/// Whether a form entry is blank: empty once trimmed.
pub fn is_blank_text(s: &str) -> (b: bool)
    ensures
        b == (trimmed(s@).len() == 0),
{
    trim_blanks(s).unicode_len() == 0
}

/// Parse one dependency id as the form reads it: blanks around the
/// digits are ignored, anything else is refused.
pub fn parse_id(s: &str) -> (r: Option<u64>)
    ensures
        r is Some <==> dep_token_ok(s@),
        r is Some ==> r == Some((dec_value(trimmed(s@)) as u64)),
{
    parse_u64(trim_blanks(s))
}

/// Whether one comma-separated entry is a well-formed dependency id.
pub open spec fn dep_token_ok(t: Seq<char>) -> bool {
    &&& trimmed(t).len() > 0
    &&& all_digits(trimmed(t))
    &&& dec_value(trimmed(t)) <= u64::MAX
}

/// The comma-separated pieces of `s`: one more piece than there are
/// commas, in order, each possibly empty.
pub open spec fn split_commas(s: Seq<char>) -> Seq<Seq<char>>
    decreases s.len(),
{
    if s.len() == 0 {
        seq![s]
    } else if s.first() == ',' {
        seq![Seq::<char>::empty()] + split_commas(s.drop_first())
    } else {
        let rest = split_commas(s.drop_first());
        seq![seq![s.first()] + rest.first()] + rest.drop_first()
    }
}

/// Splitting yields at least one piece.
proof fn lemma_split_len(s: Seq<char>)
    ensures
        split_commas(s).len() >= 1,
    decreases s.len(),
{
    if s.len() > 0 && s.first() != ',' {
        lemma_split_len(s.drop_first());
    }
}

/// A string without commas is one piece.
proof fn lemma_split_no_comma(s: Seq<char>)
    requires
        forall|i: int| 0 <= i < s.len() ==> s[i] != ',',
    ensures
        split_commas(s) == seq![s],
    decreases s.len(),
{
    if s.len() > 0 {
        let s1 = s.drop_first();
        assert forall|i: int| 0 <= i < s1.len() implies s1[i] != ',' by {
            assert(s1[i] == s[i + 1]);
        }
        lemma_split_no_comma(s1);
        lemma_split_len(s1);
        assert(seq![s.first()] + s1 =~= s);
        assert(split_commas(s) =~~= seq![s]);
    }
}

/// Splitting at the first comma: the piece before it, then the pieces
/// of what follows.
proof fn lemma_split_first_comma(s: Seq<char>, p: int)
    requires
        0 <= p < s.len(),
        s[p] == ',',
        forall|i: int| 0 <= i < p ==> s[i] != ',',
    ensures
        split_commas(s) == seq![s.subrange(0, p)] + split_commas(
            s.subrange(p + 1, s.len() as int),
        ),
    decreases s.len(),
{
    if p == 0 {
        assert(s.first() == ',');
        assert(s.drop_first() =~= s.subrange(1, s.len() as int));
        assert(s.subrange(0, 0) =~= Seq::<char>::empty());
        assert(split_commas(s) =~~= seq![s.subrange(0, 0)] + split_commas(
            s.subrange(1, s.len() as int),
        ));
    } else {
        let s1 = s.drop_first();
        assert forall|i: int| 0 <= i < p - 1 implies s1[i] != ',' by {
            assert(s1[i] == s[i + 1]);
        }
        assert(s1[p - 1] == ',');
        lemma_split_first_comma(s1, p - 1);
        lemma_split_len(s1.subrange(p, s1.len() as int));
        assert(s1.subrange(0, p - 1) =~= s.subrange(1, p));
        assert(s1.subrange(p, s1.len() as int) =~= s.subrange(p + 1, s.len() as int));
        assert(seq![s.first()] + s.subrange(1, p) =~= s.subrange(0, p));
        assert(split_commas(s) =~~= seq![s.subrange(0, p)] + split_commas(
            s.subrange(p + 1, s.len() as int),
        ));
    }
}

/// Whether a whole dependency list entry is well formed: every
/// comma-separated piece is a well-formed id.
pub open spec fn dep_ids_ok(s: Seq<char>) -> bool {
    forall|k: int| 0 <= k < split_commas(s).len() ==> dep_token_ok(#[trigger] split_commas(s)[k])
}

/// The ids a well-formed dependency list spells, in order.
pub open spec fn dep_ids_of(s: Seq<char>) -> Seq<u64> {
    split_commas(s).map_values(|t: Seq<char>| dec_value(trimmed(t)) as u64)
}

/// Parse a comma-separated dependency list, as the submission form
/// does: each piece is trimmed of blanks and read as a decimal id, and
/// the whole entry is refused if any piece fails (an empty entry has
/// one empty piece, so it is refused too).
pub fn parse_dep_ids(s: &str) -> (r: Option<Vec<u64>>)
    ensures
        r is Some <==> dep_ids_ok(s@),
        r is Some ==> (r matches Some(ids) && ids@ == dep_ids_of(s@)),
{
    let n = s.unicode_len();
    let ghost pieces = split_commas(s@);
    proof {
        lemma_split_len(s@);
        assert(s@.subrange(0, n as int) =~= s@);
        assert(pieces.subrange(0, 0) =~= Seq::<Seq<char>>::empty());
    }
    let mut ids: Vec<u64> = Vec::new();
    let mut start: usize = 0;
    let mut i: usize = 0;
    while i < n
        invariant
            n == s@.len(),
            0 <= start as int <= i as int <= n as int,
            pieces == split_commas(s@),
            forall|m: int| start <= m < i ==> s@[m] != ',',
            ids@.len() <= pieces.len(),
            pieces =~= pieces.subrange(0, ids@.len() as int) + split_commas(
                s@.subrange(start as int, n as int),
            ),
            forall|k: int| 0 <= k < ids@.len() ==> dep_token_ok(#[trigger] pieces[k]),
            forall|k: int|
                0 <= k < ids@.len() ==> ids@[k] == dec_value(trimmed(#[trigger] pieces[k])),
        decreases n - i,
    {
        if s.get_char(i) == ',' {
            let ghost suffix = s@.subrange(start as int, n as int);
            proof {
                assert forall|m: int| 0 <= m < i - start implies suffix[m] != ',' by {
                    assert(suffix[m] == s@[start + m]);
                }
                assert(suffix[i - start] == ',');
                lemma_split_first_comma(suffix, i - start);
                assert(suffix.subrange(0, i - start) =~= s@.subrange(start as int, i as int));
                assert(suffix.subrange(i - start + 1, suffix.len() as int) =~= s@.subrange(
                    i + 1,
                    n as int,
                ));
                assert(pieces[ids@.len() as int] == s@.subrange(start as int, i as int));
            }
            let piece = s.substring_char(start, i);
            match parse_id(piece) {
                Some(v) => {
                    ids.push(v);
                },
                None => {
                    proof {
                        assert(!dep_token_ok(pieces[ids@.len() as int]));
                    }
                    return None;
                },
            }
            start = i + 1;
        }
        i = i + 1;
    }
    let ghost suffix = s@.subrange(start as int, n as int);
    proof {
        assert forall|m: int| 0 <= m < suffix.len() implies suffix[m] != ',' by {
            assert(suffix[m] == s@[start + m]);
        }
        lemma_split_no_comma(suffix);
        assert(pieces[ids@.len() as int] == suffix);
        assert(pieces.len() == ids@.len() + 1);
    }
    let piece = s.substring_char(start, n);
    match parse_id(piece) {
        Some(v) => {
            ids.push(v);
            proof {
                assert(ids@ =~= dep_ids_of(s@));
            }
            Some(ids)
        },
        None => {
            proof {
                assert(!dep_token_ok(pieces[(ids@.len()) as int]));
            }
            None
        },
    }
}

/// Check a filled submission form, in the order the form does: a blank
/// task name, then a blank executable path, is refused with the message
/// shown to the user; then the dependency list must parse.  On success
/// the parsed dependency ids are returned.
pub fn validate_task_form(name: &str, deps: &str, exec_file: &str) -> (r: Result<Vec<u64>, Popup>)
    ensures
        r is Ok <==> trimmed(name@).len() > 0 && trimmed(exec_file@).len() > 0 && dep_ids_ok(
            deps@,
        ),
        r is Ok ==> (r matches Ok(ids) && ids@ == dep_ids_of(deps@)),
        r is Err ==> (r matches Err(p) && p.title@ == "Error"@ && (if trimmed(name@).len() == 0 {
            p.content@ == "Task name cannot be empty"@
        } else if trimmed(exec_file@).len() == 0 {
            p.content@ == "Exec File cannot be empty"@
        } else {
            p.content@ == "Deps id is not valid"@
        })),
{
    if is_blank_text(name) {
        return Err(
            Popup::new(String::from_str("Error"), String::from_str("Task name cannot be empty")),
        );
    }
    if is_blank_text(exec_file) {
        return Err(
            Popup::new(String::from_str("Error"), String::from_str("Exec File cannot be empty")),
        );
    }
    match parse_dep_ids(deps) {
        Some(ids) => Ok(ids),
        None => Err(
            Popup::new(String::from_str("Error"), String::from_str("Deps id is not valid")),
        ),
    }
}

} // verus!
