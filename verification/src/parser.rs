//! The tolerant delimited-record parser: one line of text in, at most one
//! two-field record out. Commas separate fields, double quotes protect
//! commas, a doubled quote inside quotes is a literal quote, every closed
//! field is trimmed of surrounding whitespace. Malformed quoting is never
//! an error: the scan degrades gracefully and never panics.

use vstd::prelude::*;
use crate::chars::{spec_trim, trim_chars, str_to_chars, chars_to_string, string_views};

verus! {

/// The fields produced by scanning `s` from the state `in_quotes` with the
/// partial field `cur` and the already-closed fields `acc`.
pub open spec fn parse_fields(
    s: Seq<char>,
    in_quotes: bool,
    cur: Seq<char>,
    acc: Seq<Seq<char>>,
) -> Seq<Seq<char>>
    decreases s.len(),
{
    if s.len() == 0 {
        acc.push(spec_trim(cur))
    } else if s[0] == '"' {
        if in_quotes && s.len() >= 2 && s[1] == '"' {
            parse_fields(s.skip(2), in_quotes, cur.push('"'), acc)
        } else {
            parse_fields(s.skip(1), !in_quotes, cur, acc)
        }
    } else if s[0] == ',' && !in_quotes {
        parse_fields(s.skip(1), in_quotes, Seq::<char>::empty(), acc.push(spec_trim(cur)))
    } else {
        parse_fields(s.skip(1), in_quotes, cur.push(s[0]), acc)
    }
}

/// All fields of one line, trimmed, in order. A line always closes at
/// least one field (an empty line closes one empty field).
pub open spec fn spec_fields(s: Seq<char>) -> Seq<Seq<char>> {
    parse_fields(s, false, Seq::<char>::empty(), Seq::<Seq<char>>::empty())
}

/// The record of one line: its first two fields, or nothing when the line
/// closes fewer than two.
pub open spec fn spec_parse_line(s: Seq<char>) -> Option<(Seq<char>, Seq<char>)> {
    let fs = spec_fields(s);
    if fs.len() >= 2 {
        Some((fs[0], fs[1]))
    } else {
        None
    }
}

/// Parses one line into a (question, answer) record, or `None` when the
/// line yields fewer than two fields. Extra fields are ignored.
pub fn parse_csv_line(line: &str) -> (r: Option<(String, String)>)
    ensures
        r is Some <==> spec_parse_line(line@) is Some,
        r is Some ==> r.unwrap().0@ == spec_parse_line(line@).unwrap().0,
        r is Some ==> r.unwrap().1@ == spec_parse_line(line@).unwrap().1,
{
    let chars = str_to_chars(line);
    let n = chars.len();
    let mut i: usize = 0;
    let mut in_quotes = false;
    let mut cur: Vec<char> = Vec::new();
    let mut fields: Vec<String> = Vec::new();
    proof {
        assert(chars@.skip(0) =~= chars@);
        assert(string_views(fields@) =~= Seq::<Seq<char>>::empty());
    }
    while i < n
        invariant
            0 <= i <= n == chars@.len(),
            chars@ == line@,
            parse_fields(chars@.skip(i as int), in_quotes, cur@, string_views(fields@))
                == spec_fields(line@),
        decreases n - i,
    {
        let ghost rest = chars@.skip(i as int);
        proof {
            assert(rest[0] == chars@[i as int]);
        }
        let c = chars[i];
        if c == '"' {
            if in_quotes && i + 1 < n && chars[i + 1] == '"' {
                proof {
                    assert(rest[1] == chars@[i + 1]);
                    assert(rest.skip(2) =~= chars@.skip(i + 2));
                }
                cur.push('"');
                i = i + 2;
            } else {
                proof {
                    assert(rest.skip(1) =~= chars@.skip(i + 1));
                }
                in_quotes = !in_quotes;
                i = i + 1;
            }
        } else if c == ',' && !in_quotes {
            proof {
                assert(rest.skip(1) =~= chars@.skip(i + 1));
            }
            let t = trim_chars(&cur);
            let f = chars_to_string(&t);
            let ghost old_fields = fields@;
            fields.push(f);
            proof {
                assert(string_views(old_fields.push(f))
                    =~= string_views(old_fields).push(f@));
            }
            cur.clear();
            i = i + 1;
        } else {
            proof {
                assert(rest.skip(1) =~= chars@.skip(i + 1));
            }
            cur.push(c);
            i = i + 1;
        }
    }
    proof {
        assert(chars@.skip(n as int) =~= Seq::<char>::empty());
    }
    let t = trim_chars(&cur);
    let f = chars_to_string(&t);
    let ghost old_fields = fields@;
    fields.push(f);
    proof {
        assert(string_views(old_fields.push(f)) =~= string_views(old_fields).push(f@));
        assert(string_views(fields@) == spec_fields(line@));
    }
    if fields.len() >= 2 {
        let q = fields[0].clone();
        let a = fields[1].clone();
        proof {
            assert(q@ == string_views(fields@)[0]);
            assert(a@ == string_views(fields@)[1]);
        }
        Some((q, a))
    } else {
        None
    }
}

} // verus!
