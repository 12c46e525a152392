//! The lexer: one raw source line in, its non-empty fields out.
//!
//! Everything at and after the first `#` is comment. The rest splits on
//! comma, space, tab and newline; empty fragments are discarded.

use vstd::prelude::*;
use vstd::string::{StrSliceExecFns, StringExecFns};

verus! {

/// A field separator.
pub open spec fn is_sep(c: char) -> bool {
    c == ',' || c == ' ' || c == '\t' || c == '\n'
}

/// The fields of `s`, given a partial field `cur` already read and the
/// finished fields `acc`: walks `s` left to right, closing `cur` at
/// each separator (keeping it only when non-empty) and stopping at the
/// first `#`.
pub open spec fn lex_acc(s: Seq<char>, cur: Seq<char>, acc: Seq<Seq<char>>) -> Seq<Seq<char>>
    decreases s.len(),
{
    if s.len() == 0 {
        if cur.len() > 0 {
            acc.push(cur)
        } else {
            acc
        }
    } else if s[0] == '#' {
        if cur.len() > 0 {
            acc.push(cur)
        } else {
            acc
        }
    } else if is_sep(s[0]) {
        lex_acc(
            s.drop_first(),
            Seq::empty(),
            if cur.len() > 0 {
                acc.push(cur)
            } else {
                acc
            },
        )
    } else {
        lex_acc(s.drop_first(), cur.push(s[0]), acc)
    }
}

/// The field sequence of one raw line.
pub open spec fn lex_line(s: Seq<char>) -> Seq<Seq<char>> {
    lex_acc(s, Seq::empty(), Seq::empty())
}

/// The fields joined back into one line with `", "` between them.
pub open spec fn join_fields(fs: Seq<Seq<char>>) -> Seq<char>
    decreases fs.len(),
{
    if fs.len() == 0 {
        Seq::empty()
    } else if fs.len() == 1 {
        fs[0]
    } else {
        fs[0] + seq![',', ' '] + join_fields(fs.drop_first())
    }
}

/// No character of `f` is a separator or starts a comment.
pub open spec fn clean_chars(f: Seq<char>) -> bool {
    forall|i: int| 0 <= i < f.len() ==> !is_sep(#[trigger] f[i]) && f[i] != '#'
}

/// A field as the lexer produces them: non-empty and clean.
pub open spec fn clean_field(f: Seq<char>) -> bool {
    f.len() > 0 && clean_chars(f)
}

/// Every field is non-empty and clean.
pub open spec fn clean_fields(fs: Seq<Seq<char>>) -> bool {
    forall|i: int| 0 <= i < fs.len() ==> clean_field(#[trigger] fs[i])
}

proof fn lemma_lex_acc_clean(s: Seq<char>, cur: Seq<char>, acc: Seq<Seq<char>>)
    requires
        clean_fields(acc),
        clean_chars(cur),
    ensures
        clean_fields(lex_acc(s, cur, acc)),
    decreases s.len(),
{
    let flushed = if cur.len() > 0 {
        acc.push(cur)
    } else {
        acc
    };
    assert(clean_fields(flushed)) by {
        if cur.len() > 0 {
            assert forall|i: int| 0 <= i < flushed.len() implies clean_field(
                #[trigger] flushed[i],
            ) by {
                if i < acc.len() {
                    assert(flushed[i] == acc[i]);
                }
            }
        }
    }
    if s.len() == 0 || s[0] == '#' {
    } else if is_sep(s[0]) {
        lemma_lex_acc_clean(s.drop_first(), Seq::empty(), flushed);
    } else {
        assert(clean_chars(cur.push(s[0]))) by {
            let cur2 = cur.push(s[0]);
            assert forall|i: int| 0 <= i < cur2.len() implies !is_sep(#[trigger] cur2[i])
                && cur2[i] != '#' by {
                if i < cur.len() {
                    assert(cur2[i] == cur[i]);
                }
            }
        }
        lemma_lex_acc_clean(s.drop_first(), cur.push(s[0]), acc);
    }
}

proof fn lemma_lex_acc_extend(t: Seq<char>, r: Seq<char>, cur: Seq<char>, acc: Seq<Seq<char>>)
    requires
        clean_chars(t),
    ensures
        lex_acc(t + r, cur, acc) == lex_acc(r, cur + t, acc),
    decreases t.len(),
{
    if t.len() == 0 {
        assert(t + r =~= r);
        assert(cur + t =~= cur);
    } else {
        let s = t + r;
        assert(s[0] == t[0]);
        assert(!is_sep(s[0]) && s[0] != '#');
        assert(s.drop_first() =~= t.drop_first() + r);
        assert(clean_chars(t.drop_first())) by {
            let td = t.drop_first();
            assert forall|i: int| 0 <= i < td.len() implies !is_sep(#[trigger] td[i]) && td[i]
                != '#' by {
                assert(td[i] == t[i + 1]);
            }
        }
        lemma_lex_acc_extend(t.drop_first(), r, cur.push(t[0]), acc);
        assert(cur.push(t[0]) + t.drop_first() =~= cur + t);
    }
}

proof fn lemma_lex_acc_sep(r: Seq<char>, cur: Seq<char>, acc: Seq<Seq<char>>)
    requires
        cur.len() > 0,
    ensures
        lex_acc(seq![',', ' '] + r, cur, acc) == lex_acc(r, Seq::empty(), acc.push(cur)),
{
    let s = seq![',', ' '] + r;
    assert(s[0] == ',');
    assert(s.len() > 0 && is_sep(s[0]) && s[0] != '#');
    assert(lex_acc(s, cur, acc) == lex_acc(s.drop_first(), Seq::empty(), acc.push(cur)));
    let s2 = seq![' '] + r;
    assert(s.drop_first() =~= s2);
    assert(s2[0] == ' ');
    assert(s2.len() > 0 && is_sep(s2[0]) && s2[0] != '#');
    assert(lex_acc(s2, Seq::empty(), acc.push(cur)) == lex_acc(
        s2.drop_first(),
        Seq::empty(),
        acc.push(cur),
    ));
    assert(s2.drop_first() =~= r);
}

proof fn lemma_lex_join(fs: Seq<Seq<char>>, acc: Seq<Seq<char>>)
    requires
        clean_fields(fs),
    ensures
        lex_acc(join_fields(fs), Seq::empty(), acc) == acc + fs,
    decreases fs.len(),
{
    if fs.len() == 0 {
        assert(acc + fs =~= acc);
    } else if fs.len() == 1 {
        assert(clean_field(fs[0]));
        lemma_lex_acc_extend(fs[0], Seq::empty(), Seq::empty(), acc);
        assert(fs[0] + Seq::<char>::empty() =~= fs[0]);
        assert(Seq::<char>::empty() + fs[0] =~= fs[0]);
        assert(lex_acc(Seq::empty(), fs[0], acc) == acc.push(fs[0]));
        assert(acc.push(fs[0]) =~= acc + fs);
    } else {
        let t = fs[0];
        let tail = fs.drop_first();
        assert(clean_field(t));
        assert(clean_fields(tail)) by {
            assert forall|i: int| 0 <= i < tail.len() implies clean_field(#[trigger] tail[i]) by {
                assert(tail[i] == fs[i + 1]);
            }
        }
        let rest = seq![',', ' '] + join_fields(tail);
        assert(join_fields(fs) =~= t + rest);
        lemma_lex_acc_extend(t, rest, Seq::empty(), acc);
        assert(Seq::<char>::empty() + t =~= t);
        lemma_lex_acc_sep(join_fields(tail), t, acc);
        lemma_lex_join(tail, acc.push(t));
        assert(acc.push(t) + tail =~= acc + fs);
    }
}

/// Every field a line lexes to is non-empty and free of separators and
/// comment marks.
pub proof fn lemma_lex_fields_clean(s: Seq<char>)
    ensures
        clean_fields(lex_line(s)),
{
    lemma_lex_acc_clean(s, Seq::empty(), Seq::empty());
}

/// Lexing is stable under rejoining: joining the fields of a line with
/// `", "` and lexing the result gives the same field sequence.
pub proof fn lemma_lex_rejoin(s: Seq<char>)
    ensures
        lex_line(join_fields(lex_line(s))) == lex_line(s),
{
    lemma_lex_acc_clean(s, Seq::empty(), Seq::empty());
    lemma_lex_join(lex_line(s), Seq::empty());
    assert(Seq::<Seq<char>>::empty() + lex_line(s) =~= lex_line(s));
}

/// Splits one raw line into its fields.
pub fn lex(line: &str) -> (r: Vec<String>)
    ensures
        r.deep_view() == lex_line(line@),
{
    let len = line.unicode_len();
    let mut fields: Vec<String> = Vec::new();
    let mut start: usize = 0;
    let mut i: usize = 0;
    proof {
        assert(line@.subrange(0, len as int) =~= line@);
        assert(line@.subrange(0, 0) =~= Seq::<char>::empty());
        assert(fields.deep_view() =~= Seq::<Seq<char>>::empty());
    }
    while i < len
        invariant
            start <= i <= len,
            len == line@.len(),
            lex_line(line@) == lex_acc(
                line@.subrange(i as int, len as int),
                line@.subrange(start as int, i as int),
                fields.deep_view(),
            ),
        decreases len - i,
    {
        let ghost s = line@.subrange(i as int, len as int);
        let ghost cur = line@.subrange(start as int, i as int);
        let ghost acc = fields.deep_view();
        proof {
            assert(s[0] == line@[i as int]);
            assert(s.drop_first() =~= line@.subrange(i as int + 1, len as int));
        }
        let c = line.get_char(i);
        if c == '#' {
            if start < i {
                let f = String::from_str(line.substring_char(start, i));
                fields.push(f);
                proof {
                    assert(fields.deep_view() =~= acc.push(cur));
                }
            }
            proof {
                assert(fields.deep_view() == lex_line(line@));
            }
            return fields;
        } else if c == ',' || c == ' ' || c == '\t' || c == '\n' {
            if start < i {
                let f = String::from_str(line.substring_char(start, i));
                fields.push(f);
                proof {
                    assert(fields.deep_view() =~= acc.push(cur));
                }
            }
            start = i + 1;
            proof {
                assert(line@.subrange(start as int, i as int + 1) =~= Seq::<char>::empty());
            }
        } else {
            proof {
                assert(line@.subrange(start as int, i as int + 1) =~= cur.push(line@[i as int]));
            }
        }
        i += 1;
    }
    let ghost cur = line@.subrange(start as int, len as int);
    let ghost acc = fields.deep_view();
    proof {
        assert(line@.subrange(len as int, len as int) =~= Seq::<char>::empty());
    }
    if start < len {
        let f = String::from_str(line.substring_char(start, len));
        fields.push(f);
        proof {
            assert(fields.deep_view() =~= acc.push(cur));
        }
    }
    proof {
        assert(fields.deep_view() == lex_line(line@));
    }
    fields
}

} // verus!
