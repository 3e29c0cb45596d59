//! A generic JSON-like tree of sequences, mappings and scalars, with the
//! dot-path lookup used to locate the result URL in a provider response:
//! a numeric path segment indexes a sequence, any other segment indexes a
//! mapping, and the value at the end of the path must be a string.

use vstd::prelude::*;
use vstd::string::StrSliceExecFns;
use crate::amount::{
    all_dec_digits, dec_str_val, dec_val, digit_of, digits_of, first_dot, has_dot, is_dec_digit,
    lemma_dec_val_prefix, lemma_first_dot,
};
use crate::text::str_eq;

verus! {

/// A JSON value, independent of any particular parser. Numbers are kept as
/// their literal text.
pub enum JsonTree {
    Null,
    Bool(bool),
    Num(String),
    Str(String),
    Arr(Vec<JsonTree>),
    Obj(Vec<(String, JsonTree)>),
}

/// The digit characters of an index segment: the segment with one optional
/// leading `+` sign removed.
pub open spec fn seg_digits(s: Seq<char>) -> Seq<char> {
    if s.len() > 0 && s[0] == '+' {
        s.drop_first()
    } else {
        s
    }
}

/// Whether a path segment denotes a sequence index: at least one decimal
/// digit after an optional `+`, and a value that fits in `usize`.
pub open spec fn is_index_segment(s: Seq<char>) -> bool {
    &&& seg_digits(s).len() > 0
    &&& all_dec_digits(seg_digits(s))
    &&& dec_str_val(seg_digits(s)) <= usize::MAX
}

/// The index denoted by an index segment.
pub open spec fn index_of_segment(s: Seq<char>) -> nat {
    dec_str_val(seg_digits(s))
}

/// The value bound to a key in a mapping; the first binding wins.
pub open spec fn obj_get(fields: Seq<(String, JsonTree)>, key: Seq<char>) -> Option<JsonTree>
    decreases fields.len(),
{
    if fields.len() == 0 {
        Option::<JsonTree>::None
    } else if fields.first().0@ == key {
        Some(fields.first().1)
    } else {
        obj_get(fields.drop_first(), key)
    }
}

/// One step of the dot-path lookup: an index segment selects from a
/// sequence, any other segment selects from a mapping.
pub open spec fn lookup_seg(t: JsonTree, seg: Seq<char>) -> Option<JsonTree> {
    if is_index_segment(seg) {
        match t {
            JsonTree::Arr(v) => if index_of_segment(seg) < v@.len() {
                Some(v@[index_of_segment(seg) as int])
            } else {
                Option::<JsonTree>::None
            },
            _ => Option::<JsonTree>::None,
        }
    } else {
        match t {
            JsonTree::Obj(fields) => obj_get(fields@, seg),
            _ => Option::<JsonTree>::None,
        }
    }
}

/// The value at the end of a segment path, if every step succeeds.
pub open spec fn lookup_path(t: JsonTree, segs: Seq<Seq<char>>) -> Option<JsonTree>
    decreases segs.len(),
{
    if segs.len() == 0 {
        Some(t)
    } else {
        match lookup_seg(t, segs.first()) {
            Option::<JsonTree>::None => Option::<JsonTree>::None,
            Some(t2) => lookup_path(t2, segs.drop_first()),
        }
    }
}

/// The segments of a dot-separated path. An empty path yields one empty
/// segment, as splitting does.
pub open spec fn path_segments(p: Seq<char>) -> Seq<Seq<char>>
    decreases p.len(),
    via path_segments_decreases
{
    if !has_dot(p) {
        seq![p]
    } else {
        seq![p.take(first_dot(p))] + path_segments(p.skip(first_dot(p) + 1))
    }
}

#[via_fn]
proof fn path_segments_decreases(p: Seq<char>) {
    lemma_first_dot(p);
}

/// The string value at the end of the path in the tree, when the lookup
/// succeeds and lands on a string.
pub open spec fn path_string(t: JsonTree, p: Seq<char>) -> Option<Seq<char>> {
    match lookup_path(t, path_segments(p)) {
        Some(JsonTree::Str(s)) => Some(s@),
        _ => Option::<Seq<char>>::None,
    }
}

/// Why a dot-path lookup failed.
#[derive(Debug, Clone, Copy, PartialEq, Eq)]
pub enum ExtractError {
    /// Some path segment named a missing index or key, or stepped into a
    /// scalar.
    NotFound,
    /// The value at the end of the path is not a string.
    NotAString,
}

impl ExtractError {
    /// A short description of the error.
    pub fn message(&self) -> (r: &'static str)
        ensures
            r@.len() > 0,
    {
        proof {
            reveal_strlit("path not found in response");
            reveal_strlit("value at path is not a string");
        }
        match self {
            ExtractError::NotFound => "path not found in response",
            ExtractError::NotAString => "value at path is not a string",
        }
    }
}

/// Parse the characters of `p` in `[from, to)` as a sequence index.
fn parse_index_segment(p: &str, from: usize, to: usize) -> (r: Option<usize>)
    requires
        from <= to,
        to as int <= p@.len(),
    ensures
        r is Some <==> is_index_segment(p@.subrange(from as int, to as int)),
        r is Some ==> r->Some_0 as nat == index_of_segment(p@.subrange(from as int, to as int)),
{
    let ghost seg = p@.subrange(from as int, to as int);
    let mut i = from;
    if i < to && p.get_char(i) == '+' {
        i += 1;
    }
    let ghost d0 = i as int;
    let ghost sd = seg_digits(seg);
    proof {
        assert(sd =~= p@.subrange(d0, to as int));
    }
    if i == to {
        return None;
    }
    let mut acc: u128 = 0;
    proof {
        assert(p@.subrange(d0, d0) =~= Seq::<char>::empty());
        assert(digits_of(p@.subrange(d0, d0)) =~= Seq::<u8>::empty());
        assert(dec_val(Seq::<u8>::empty()) == 0);
    }
    while i < to
        invariant
            0 <= d0 <= i as int <= to,
            to as int <= p@.len(),
            seg == p@.subrange(from as int, to as int),
            sd == seg_digits(seg),
            sd == p@.subrange(d0, to as int),
            all_dec_digits(p@.subrange(d0, i as int)),
            acc as nat == dec_str_val(p@.subrange(d0, i as int)),
            acc <= usize::MAX as u128,
        decreases to - i,
    {
        let c = p.get_char(i);
        let u = c as u32;
        if u < 48 || u > 57 {
            proof {
                assert(sd[i as int - d0] == c);
                assert(!is_dec_digit(c));
                assert(!all_dec_digits(sd));
                assert(!is_index_segment(seg));
            }
            return None;
        }
        acc = acc * 10 + (u - 48) as u128;
        proof {
            let prev = p@.subrange(d0, i as int);
            assert(p@.subrange(d0, i + 1) =~= prev.push(c));
            assert(digits_of(prev.push(c)) =~= digits_of(prev).push(digit_of(c)));
            assert(digits_of(prev).push(digit_of(c)).drop_last() =~= digits_of(prev));
            assert forall|j: int| 0 <= j < i + 1 - d0 implies is_dec_digit(
                #[trigger] p@.subrange(d0, i + 1)[j],
            ) by {
                if j < i as int - d0 {
                    assert(p@.subrange(d0, i + 1)[j] == prev[j]);
                }
            }
        }
        if acc > usize::MAX as u128 {
            proof {
                let cur = digits_of(p@.subrange(d0, i + 1));
                if all_dec_digits(sd) {
                    assert(cur =~= digits_of(sd).take(i + 1 - d0));
                    lemma_dec_val_prefix(digits_of(sd), i + 1 - d0);
                }
            }
            return None;
        }
        i += 1;
    }
    proof {
        assert(p@.subrange(d0, to as int) == sd);
    }
    Some(acc as usize)
}

/// Extract the string at a dot-separated path in the tree. A numeric
/// segment indexes a sequence, any other segment indexes a mapping; the
/// value found at the end must be a string.
pub fn extract_url(json: &JsonTree, dot_path: &str) -> (r: Result<String, ExtractError>)
    ensures
        r is Ok <==> path_string(*json, dot_path@) is Some,
        r is Ok ==> r->Ok_0@ == path_string(*json, dot_path@)->Some_0,
        (r is Err && r->Err_0 == ExtractError::NotFound) <==> lookup_path(
            *json,
            path_segments(dot_path@),
        ) is None,
        (r is Err && r->Err_0 == ExtractError::NotAString) <==> (lookup_path(
            *json,
            path_segments(dot_path@),
        ) is Some && !(lookup_path(*json, path_segments(dot_path@)) matches Some(
            JsonTree::Str(_),
        ))),
{
    let n = dot_path.unicode_len();
    let mut current: &JsonTree = json;
    let mut start: usize = 0;
    proof {
        assert(dot_path@.skip(0) =~= dot_path@);
    }
    loop
        invariant
            0 <= start <= n,
            n == dot_path@.len(),
            lookup_path(*json, path_segments(dot_path@)) == lookup_path(
                *current,
                path_segments(dot_path@.skip(start as int)),
            ),
        decreases n - start,
    {
        let ghost rest = dot_path@.skip(start as int);
        proof {
            lemma_first_dot(rest);
        }
        // Find the end of the current segment.
        let mut end: usize = start;
        while end < n && dot_path.get_char(end) != '.'
            invariant
                start <= end <= n,
                n == dot_path@.len(),
                forall|j: int| start <= j < end ==> #[trigger] dot_path@[j] != '.',
            decreases n - end,
        {
            end += 1;
        }
        proof {
            assert forall|j: int| 0 <= j < end - start implies #[trigger] rest[j] != '.' by {
                assert(rest[j] == dot_path@[j + start]);
            }
            if (end as int) < n as int {
                assert(rest[end - start] == dot_path@[end as int]);
            }
            assert(first_dot(rest) == end - start);
            assert(has_dot(rest) == ((end as int) < n as int));
            assert(rest.take(first_dot(rest)) =~= dot_path@.subrange(start as int, end as int));
        }
        let ghost seg = dot_path@.subrange(start as int, end as int);
        let ghost segs = path_segments(rest);
        proof {
            if has_dot(rest) {
                assert(segs == seq![seg] + path_segments(rest.skip(end - start + 1)));
                assert(segs.first() == seg);
                assert(segs.drop_first() =~= path_segments(rest.skip(end - start + 1)));
                assert(rest.skip(end - start + 1) =~= dot_path@.skip(end + 1));
            } else {
                assert(segs == seq![seg]);
                assert(segs.first() == seg);
                assert(segs.drop_first() =~= Seq::<Seq<char>>::empty());
            }
        }
        // Resolve the segment against the current tree node.
        let stepped: &JsonTree = match parse_index_segment(dot_path, start, end) {
            Some(idx) => {
                match current {
                    JsonTree::Arr(v) => {
                        if idx < v.len() {
                            &v[idx]
                        } else {
                            return Err(ExtractError::NotFound);
                        }
                    },
                    _ => {
                        return Err(ExtractError::NotFound);
                    },
                }
            },
            None => {
                match current {
                    JsonTree::Obj(fields) => {
                        let seg_str = dot_path.substring_char(start, end);
                        let mut fi: usize = 0;
                        let mut found: Option<&JsonTree> = None;
                        proof {
                            assert(fields@.skip(0) =~= fields@);
                        }
                        while fi < fields.len()
                            invariant
                                0 <= fi <= fields@.len(),
                                seg_str@ == seg,
                                found is None ==> obj_get(fields@, seg) == obj_get(
                                    fields@.skip(fi as int),
                                    seg,
                                ),
                                found matches Some(f) ==> obj_get(fields@, seg) == Some(*f),
                            decreases fields@.len() - fi,
                        {
                            if found.is_none() && str_eq(fields[fi].0.as_str(), seg_str) {
                                found = Some(&fields[fi].1);
                                proof {
                                    assert(fields@.skip(fi as int).first() == fields@[fi as int]);
                                }
                            } else {
                                proof {
                                    if found is None {
                                        assert(fields@.skip(fi as int).first() == fields@[
                                            fi as int]);
                                        assert(fields@.skip(fi as int).drop_first()
                                            =~= fields@.skip(fi as int + 1));
                                    }
                                }
                            }
                            fi += 1;
                        }
                        match found {
                            Some(f) => f,
                            None => {
                                proof {
                                    assert(fields@.skip(fields@.len() as int)
                                        =~= Seq::<(String, JsonTree)>::empty());
                                }
                                return Err(ExtractError::NotFound);
                            },
                        }
                    },
                    _ => {
                        return Err(ExtractError::NotFound);
                    },
                }
            },
        };
        proof {
            assert(lookup_seg(*current, seg) == Some(*stepped));
        }
        if end == n {
            // Last segment: the value here must be a string.
            proof {
                assert(lookup_path(*stepped, segs.drop_first()) == Some(*stepped));
            }
            match stepped {
                JsonTree::Str(s) => {
                    return Ok(s.clone());
                },
                _ => {
                    return Err(ExtractError::NotAString);
                },
            }
        }
        current = stepped;
        start = end + 1;
    }
}

} // verus!
