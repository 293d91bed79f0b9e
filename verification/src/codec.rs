//! Persistence codec. The entry list is written as text, one entry per line:
//! two flag characters (completed, editing), then the description with
//! backslash and newline escaped, closed by a newline. Decoding inverts this
//! exactly; malformed text decodes to nothing.

use vstd::prelude::*;

use crate::entry::Entry;
use crate::entry::EntryModel;
use crate::text::chars_of;
use crate::text::push_char;

verus! {

/// Encoding of one description character: backslash and newline are escaped,
/// every other character stands for itself.
pub open spec fn esc_char(c: char) -> Seq<char> {
    if c == '\\' {
        seq!['\\', '\\']
    } else if c == '\n' {
        seq!['\\', 'n']
    } else {
        seq![c]
    }
}

/// Encoding of a description: each character escaped, in order.
pub open spec fn esc_text(d: Seq<char>) -> Seq<char>
    decreases d.len(),
{
    if d.len() == 0 {
        Seq::empty()
    } else {
        esc_char(d[0]) + esc_text(d.drop_first())
    }
}

/// The character a flag is written as.
pub open spec fn flag_char(b: bool) -> char {
    if b {
        '1'
    } else {
        '0'
    }
}

/// The flag a character stands for, if any.
pub open spec fn dec_flag(c: char) -> Option<bool> {
    if c == '1' {
        Some(true)
    } else if c == '0' {
        Some(false)
    } else {
        None
    }
}

/// One entry as a line: completed flag, editing flag, escaped description,
/// closing newline.
pub open spec fn enc_entry(e: EntryModel) -> Seq<char> {
    seq![flag_char(e.completed), flag_char(e.editing)] + esc_text(e.description) + seq!['\n']
}

/// The whole list, entry lines in order.
pub open spec fn enc_entries(es: Seq<EntryModel>) -> Seq<char>
    decreases es.len(),
{
    if es.len() == 0 {
        Seq::empty()
    } else {
        enc_entry(es[0]) + enc_entries(es.drop_first())
    }
}

/// Reads an escaped description up to its closing newline: the description
/// and the remaining text, or nothing when the text is malformed.
pub open spec fn dec_text(s: Seq<char>) -> Option<(Seq<char>, Seq<char>)>
    decreases s.len(),
{
    if s.len() == 0 {
        None
    } else if s[0] == '\n' {
        Some((Seq::empty(), s.drop_first()))
    } else if s[0] == '\\' {
        if s.len() < 2 {
            None
        } else if s[1] == '\\' || s[1] == 'n' {
            let c = if s[1] == 'n' {
                '\n'
            } else {
                '\\'
            };
            match dec_text(s.skip(2)) {
                None => None,
                Some(p) => Some((seq![c] + p.0, p.1)),
            }
        } else {
            None
        }
    } else {
        match dec_text(s.drop_first()) {
            None => None,
            Some(p) => Some((seq![s[0]] + p.0, p.1)),
        }
    }
}

/// Reads one entry line: the entry and the remaining text, or nothing when
/// the text is malformed.
pub open spec fn dec_entry(s: Seq<char>) -> Option<(EntryModel, Seq<char>)> {
    if s.len() < 2 {
        None
    } else {
        match dec_flag(s[0]) {
            None => None,
            Some(completed) => match dec_flag(s[1]) {
                None => None,
                Some(editing) => match dec_text(s.skip(2)) {
                    None => None,
                    Some(p) => Some(
                        (EntryModel { description: p.0, completed: completed, editing: editing }, p.1),
                    ),
                },
            },
        }
    }
}

/// Reading a description always consumes at least its closing newline.
proof fn lemma_dec_text_shrinks(s: Seq<char>)
    ensures
        dec_text(s) matches Some(p) ==> p.1.len() < s.len(),
    decreases s.len(),
{
    if s.len() == 0 {
    } else if s[0] == '\n' {
    } else if s[0] == '\\' {
        if s.len() >= 2 && (s[1] == '\\' || s[1] == 'n') {
            lemma_dec_text_shrinks(s.skip(2));
        }
    } else {
        lemma_dec_text_shrinks(s.drop_first());
    }
}

/// Reads the whole list: every entry line in order, or nothing when the text
/// is malformed.
pub open spec fn dec_entries(s: Seq<char>) -> Option<Seq<EntryModel>>
    decreases s.len(),
    via dec_entries_decreases
{
    if s.len() == 0 {
        Some(Seq::empty())
    } else {
        match dec_entry(s) {
            None => None,
            Some(p) => match dec_entries(p.1) {
                None => None,
                Some(es) => Some(seq![p.0] + es),
            },
        }
    }
}

#[via_fn]
proof fn dec_entries_decreases(s: Seq<char>) {
    if s.len() > 0 {
        lemma_dec_text_shrinks(s.skip(2));
    }
}

/// Decoding inverts encoding a description, whatever follows the line.
proof fn lemma_text_round(d: Seq<char>, rest: Seq<char>)
    ensures
        dec_text(esc_text(d) + seq!['\n'] + rest) == Some((d, rest)),
    decreases d.len(),
{
    let s = esc_text(d) + seq!['\n'] + rest;
    if d.len() == 0 {
        assert(s =~= seq!['\n'] + rest);
        assert(s[0] == '\n');
        assert(s.drop_first() =~= rest);
    } else {
        let c = d[0];
        lemma_text_round(d.drop_first(), rest);
        if c == '\\' {
            assert(s[0] == '\\' && s[1] == '\\');
            assert(s.skip(2) =~= esc_text(d.drop_first()) + seq!['\n'] + rest);
            assert(seq!['\\'] + d.drop_first() =~= d);
        } else if c == '\n' {
            assert(s[0] == '\\' && s[1] == 'n');
            assert(s.skip(2) =~= esc_text(d.drop_first()) + seq!['\n'] + rest);
            assert(seq!['\n'] + d.drop_first() =~= d);
        } else {
            assert(s[0] == c);
            assert(s.drop_first() =~= esc_text(d.drop_first()) + seq!['\n'] + rest);
            assert(seq![c] + d.drop_first() =~= d);
        }
    }
}

/// Decoding inverts encoding an entry line, whatever follows it.
proof fn lemma_entry_round(e: EntryModel, rest: Seq<char>)
    ensures
        dec_entry(enc_entry(e) + rest) == Some((e, rest)),
{
    let s = enc_entry(e) + rest;
    assert(s[0] == flag_char(e.completed));
    assert(s[1] == flag_char(e.editing));
    assert(s.skip(2) =~= esc_text(e.description) + seq!['\n'] + rest);
    lemma_text_round(e.description, rest);
    assert((EntryModel {
        description: e.description,
        completed: e.completed,
        editing: e.editing,
    }) =~= e);
}

/// Law: decoding an encoded entry list gives back exactly that list.
pub proof fn law_codec_round_trip(es: Seq<EntryModel>)
    ensures
        dec_entries(enc_entries(es)) == Some(es),
    decreases es.len(),
{
    if es.len() == 0 {
    } else {
        law_codec_round_trip(es.drop_first());
        lemma_entry_round(es[0], enc_entries(es.drop_first()));
        assert(enc_entries(es).len() > 0);
        assert(seq![es[0]] + es.drop_first() =~= es);
    }
}

/// The entry list as persistence text.
pub fn encode_entries(entries: &Vec<Entry>) -> (r: String)
    ensures
        r@ == enc_entries(entries.deep_view()),
{
    let ghost es = entries.deep_view();
    let mut out = String::new();
    let mut i: usize = 0;
    while i < entries.len()
        invariant
            i <= entries.len(),
            es == entries.deep_view(),
            out@ == enc_entries(es.take(i as int)),
        decreases entries.len() - i,
    {
        let ghost line_start = out@;
        let e = &entries[i];
        if e.completed {
            push_char(&mut out, '1');
        } else {
            push_char(&mut out, '0');
        }
        if e.editing {
            push_char(&mut out, '1');
        } else {
            push_char(&mut out, '0');
        }
        let cs = chars_of(e.description.as_str());
        let ghost d = es[i as int].description;
        let ghost pre = out@;
        let mut j: usize = 0;
        while j < cs.len()
            invariant
                j <= cs.len(),
                cs@ == d,
                out@ == pre + esc_text(d.take(j as int)),
            decreases cs.len() - j,
        {
            let ghost within = out@;
            let c = cs[j];
            if c == '\\' {
                push_char(&mut out, '\\');
                push_char(&mut out, '\\');
            } else if c == '\n' {
                push_char(&mut out, '\\');
                push_char(&mut out, 'n');
            } else {
                push_char(&mut out, c);
            }
            j = j + 1;
            proof {
                assert(d.take(j as int) =~= d.take(j as int - 1).push(d[j as int - 1]));
                lemma_esc_text_push(d.take(j as int - 1), d[j as int - 1]);
                assert(out@ =~= within + esc_char(d[j as int - 1]));
            }
        }
        push_char(&mut out, '\n');
        i = i + 1;
        proof {
            assert(d.take(cs.len() as int) =~= d);
            assert(out@ =~= line_start + enc_entry(es[i as int - 1]));
            assert(es.take(i as int) =~= es.take(i as int - 1).push(es[i as int - 1]));
            lemma_enc_entries_push(es.take(i as int - 1), es[i as int - 1]);
        }
    }
    proof {
        assert(es.take(entries.len() as int) =~= es);
    }
    out
}

/// Escaping distributes over appending one character.
proof fn lemma_esc_text_push(d: Seq<char>, c: char)
    ensures
        esc_text(d.push(c)) == esc_text(d) + esc_char(c),
    decreases d.len(),
{
    if d.len() == 0 {
        assert(d.push(c)[0] == c);
        assert(d.push(c).drop_first() =~= Seq::<char>::empty());
        assert(esc_text(Seq::<char>::empty()) == Seq::<char>::empty());
        assert(esc_char(c) + Seq::<char>::empty() =~= esc_char(c));
        assert(Seq::<char>::empty() + esc_char(c) =~= esc_char(c));
        assert(esc_text(d.push(c)) =~= esc_text(d) + esc_char(c));
    } else {
        assert(d.push(c)[0] == d[0]);
        assert(d.push(c).drop_first() =~= d.drop_first().push(c));
        lemma_esc_text_push(d.drop_first(), c);
        assert(esc_char(d[0]) + (esc_text(d.drop_first()) + esc_char(c)) =~= (esc_char(d[0])
            + esc_text(d.drop_first())) + esc_char(c));
    }
}

/// Encoding distributes over appending one entry.
proof fn lemma_enc_entries_push(es: Seq<EntryModel>, e: EntryModel)
    ensures
        enc_entries(es.push(e)) == enc_entries(es) + enc_entry(e),
    decreases es.len(),
{
    if es.len() == 0 {
        assert(es.push(e)[0] == e);
        assert(es.push(e).drop_first() =~= Seq::<EntryModel>::empty());
        assert(enc_entries(Seq::<EntryModel>::empty()) == Seq::<char>::empty());
        assert(enc_entry(e) + Seq::<char>::empty() =~= enc_entry(e));
        assert(Seq::<char>::empty() + enc_entry(e) =~= enc_entry(e));
        assert(enc_entries(es.push(e)) =~= enc_entries(es) + enc_entry(e));
    } else {
        assert(es.push(e)[0] == es[0]);
        assert(es.push(e).drop_first() =~= es.drop_first().push(e));
        lemma_enc_entries_push(es.drop_first(), e);
        assert(enc_entry(es[0]) + (enc_entries(es.drop_first()) + enc_entry(e)) =~= (enc_entry(
            es[0],
        ) + enc_entries(es.drop_first())) + enc_entry(e));
    }
}

/// Reads an escaped description out of `cs` from position `start`: the
/// description and the position after its closing newline.
fn decode_text(cs: &Vec<char>, start: usize) -> (r: Option<(String, usize)>)
    requires
        start <= cs.len(),
    ensures
        match r {
            Some(p) => {
                &&& start < p.1 <= cs.len()
                &&& dec_text(cs@.skip(start as int)) == Some((p.0@, cs@.skip(p.1 as int)))
            },
            None => dec_text(cs@.skip(start as int)) is None,
        },
{
    let n = cs.len();
    let mut desc = String::new();
    let mut q = start;
    loop
        invariant
            start <= q <= n,
            n == cs.len(),
            dec_text(cs@.skip(start as int)) == (match dec_text(cs@.skip(q as int)) {
                None => None::<(Seq<char>, Seq<char>)>,
                Some(p) => Some((desc@ + p.0, p.1)),
            }),
        decreases n - q,
    {
        if q == n {
            proof {
                assert(cs@.skip(q as int) =~= Seq::<char>::empty());
            }
            return None;
        }
        let c = cs[q];
        proof {
            assert(cs@.skip(q as int)[0] == c);
        }
        if c == '\n' {
            proof {
                assert(cs@.skip(q as int).drop_first() =~= cs@.skip(q as int + 1));
                assert(desc@ + Seq::<char>::empty() =~= desc@);
            }
            return Some((desc, q + 1));
        } else if c == '\\' {
            if q + 1 == n {
                proof {
                    assert(cs@.skip(q as int).len() == 1);
                }
                return None;
            }
            let c2 = cs[q + 1];
            proof {
                assert(cs@.skip(q as int)[1] == c2);
            }
            if c2 == '\\' || c2 == 'n' {
                let dc = if c2 == 'n' {
                    '\n'
                } else {
                    '\\'
                };
                let ghost before = desc@;
                push_char(&mut desc, dc);
                proof {
                    assert(cs@.skip(q as int).skip(2) =~= cs@.skip(q as int + 2));
                    if dec_text(cs@.skip(q as int + 2)) is Some {
                        let p = dec_text(cs@.skip(q as int + 2))->Some_0;
                        assert(before + (seq![dc] + p.0) =~= desc@ + p.0);
                    }
                }
                q = q + 2;
            } else {
                return None;
            }
        } else {
            let ghost before = desc@;
            push_char(&mut desc, c);
            proof {
                assert(cs@.skip(q as int).drop_first() =~= cs@.skip(q as int + 1));
                if dec_text(cs@.skip(q as int + 1)) is Some {
                    let p = dec_text(cs@.skip(q as int + 1))->Some_0;
                    assert(before + (seq![c] + p.0) =~= desc@ + p.0);
                }
            }
            q = q + 1;
        }
    }
}

/// The entry list a persistence text stands for, or nothing when the text is
/// malformed.
pub fn decode_entries(s: &str) -> (r: Option<Vec<Entry>>)
    ensures
        match r {
            Some(v) => dec_entries(s@) == Some(v.deep_view()),
            None => dec_entries(s@) is None,
        },
{
    let cs = chars_of(s);
    let n = cs.len();
    let mut acc: Vec<Entry> = Vec::new();
    let mut pos: usize = 0;
    proof {
        assert(s@.skip(0) =~= s@);
        assert(acc.deep_view() =~= Seq::<EntryModel>::empty());
        if dec_entries(s@) is Some {
            let es0 = dec_entries(s@)->Some_0;
            assert(acc.deep_view() + es0 =~= es0);
        }
    }
    loop
        invariant
            pos <= n,
            n == cs.len(),
            cs@ == s@,
            dec_entries(s@) == (match dec_entries(s@.skip(pos as int)) {
                None => None::<Seq<EntryModel>>,
                Some(es) => Some(acc.deep_view() + es),
            }),
        decreases n - pos,
    {
        if pos == n {
            proof {
                assert(s@.skip(pos as int) =~= Seq::<char>::empty());
                assert(acc.deep_view() + Seq::<EntryModel>::empty() =~= acc.deep_view());
            }
            return Some(acc);
        }
        if n - pos < 2 {
            proof {
                assert(s@.skip(pos as int).len() < 2);
            }
            return None;
        }
        let c0 = cs[pos];
        let c1 = cs[pos + 1];
        proof {
            assert(s@.skip(pos as int)[0] == c0);
            assert(s@.skip(pos as int)[1] == c1);
        }
        let completed: bool;
        if c0 == '1' {
            completed = true;
        } else if c0 == '0' {
            completed = false;
        } else {
            return None;
        }
        let editing: bool;
        if c1 == '1' {
            editing = true;
        } else if c1 == '0' {
            editing = false;
        } else {
            return None;
        }
        match decode_text(&cs, pos + 2) {
            None => {
                proof {
                    assert(s@.skip(pos as int).skip(2) =~= s@.skip(pos as int + 2));
                }
                return None;
            },
            Some(p) => {
                let (d, q) = p;
                let ghost em = EntryModel { description: d@, completed: completed, editing: editing };
                let ghost before = acc.deep_view();
                acc.push(Entry { description: d, completed: completed, editing: editing });
                proof {
                    assert(acc.deep_view() =~= before.push(em));
                    assert(s@.skip(pos as int).skip(2) =~= s@.skip(pos as int + 2));
                    assert(dec_entry(s@.skip(pos as int)) == Some((em, s@.skip(q as int))));
                    if dec_entries(s@.skip(q as int)) is Some {
                        let es2 = dec_entries(s@.skip(q as int))->Some_0;
                        assert(before + (seq![em] + es2) =~= acc.deep_view() + es2);
                    }
                }
                pos = q;
            },
        }
    }
}

} // verus!
