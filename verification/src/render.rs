use crate::index::UsageIndex;
use crate::model::views_of;
use crate::usage::UsageEntry;
use vstd::prelude::*;
use vstd::string::StrSliceExecFns;
use vstd::string::StringExecFns;

verus! {

/// Relies on String::push: appends exactly the one given character.
#[verifier::external_body]
pub(crate) fn push_char(s: &mut String, c: char)
    ensures
        final(s)@ == old(s)@ + seq![c],
{
    s.push(c);
}

// ---------------------------------------------------------------------------
// Terminal rendering: one block per property — the name on its own line,
// each label indented by two spaces — with one blank line between blocks and
// none before the first.
// ---------------------------------------------------------------------------
pub open spec fn label_lines(ls: Seq<Seq<char>>) -> Seq<char>
    decreases ls.len(),
{
    if ls.len() == 0 {
        Seq::empty()
    } else {
        "  "@ + ls.first() + "\n"@ + label_lines(ls.drop_first())
    }
}

pub open spec fn terminal_block(e: UsageEntry) -> Seq<char> {
    e.name@ + "\n"@ + label_lines(views_of(e.labels@))
}

pub open spec fn terminal_rest(entries: Seq<UsageEntry>) -> Seq<char>
    decreases entries.len(),
{
    if entries.len() == 0 {
        Seq::empty()
    } else {
        "\n"@ + terminal_block(entries.first()) + terminal_rest(entries.drop_first())
    }
}

/// The terminal renderer's entire output for a finalized index.
pub open spec fn terminal_of(entries: Seq<UsageEntry>) -> Seq<char> {
    if entries.len() == 0 {
        Seq::empty()
    } else {
        terminal_block(entries.first()) + terminal_rest(entries.drop_first())
    }
}

proof fn lemma_label_lines_push(ls: Seq<Seq<char>>, x: Seq<char>)
    ensures
        label_lines(ls.push(x)) == label_lines(ls) + ("  "@ + x + "\n"@),
    decreases ls.len(),
{
    if ls.len() == 0 {
        assert(ls.push(x).drop_first() =~= ls);
        assert(ls.push(x).first() == x);
        assert(label_lines(ls.push(x)) =~= label_lines(ls) + ("  "@ + x + "\n"@));
    } else {
        assert(ls.push(x).drop_first() =~= ls.drop_first().push(x));
        assert(ls.push(x).first() == ls.first());
        lemma_label_lines_push(ls.drop_first(), x);
        assert(label_lines(ls.push(x)) =~= label_lines(ls) + ("  "@ + x + "\n"@));
    }
}

proof fn lemma_terminal_rest_push(es: Seq<UsageEntry>, e: UsageEntry)
    ensures
        terminal_rest(es.push(e)) == terminal_rest(es) + ("\n"@ + terminal_block(e)),
    decreases es.len(),
{
    if es.len() == 0 {
        assert(es.push(e).drop_first() =~= es);
        assert(es.push(e).first() == e);
        assert(terminal_rest(es.push(e)) =~= terminal_rest(es) + ("\n"@ + terminal_block(e)));
    } else {
        assert(es.push(e).drop_first() =~= es.drop_first().push(e));
        assert(es.push(e).first() == es.first());
        lemma_terminal_rest_push(es.drop_first(), e);
        assert(terminal_rest(es.push(e)) =~= terminal_rest(es) + ("\n"@ + terminal_block(e)));
    }
}

proof fn lemma_terminal_push(es: Seq<UsageEntry>, e: UsageEntry)
    ensures
        terminal_of(es.push(e)) == (if es.len() == 0 {
            terminal_block(e)
        } else {
            terminal_of(es) + ("\n"@ + terminal_block(e))
        }),
{
    if es.len() == 0 {
        assert(es.push(e).first() == e);
        assert(es.push(e).drop_first() =~= Seq::<UsageEntry>::empty());
        assert(terminal_of(es.push(e)) =~= terminal_block(e));
    } else {
        assert(es.push(e).first() == es.first());
        assert(es.push(e).drop_first() =~= es.drop_first().push(e));
        lemma_terminal_rest_push(es.drop_first(), e);
        assert(terminal_of(es.push(e)) =~= terminal_of(es) + ("\n"@ + terminal_block(e)));
    }
}

/// Render the finalized index for a terminal: property name, then each label
/// indented, a blank line between properties and none before the first.
pub fn render_terminal(idx: &UsageIndex) -> (r: String)
    ensures
        r@ == terminal_of(idx.entries@),
{
    let entries = &idx.entries;
    let mut out = String::new();
    let mut i: usize = 0;
    while i < entries.len()
        invariant
            i <= entries@.len(),
            out@ == terminal_of(entries@.take(i as int)),
        decreases entries@.len() - i,
    {
        let e = &entries[i];
        let ghost base = out@;
        if i > 0 {
            out.append("\n");
        }
        out.append(e.name.as_str());
        out.append("\n");
        let ghost head = out@;
        let mut j: usize = 0;
        while j < e.labels.len()
            invariant
                j <= e.labels@.len(),
                out@ == head + label_lines(views_of(e.labels@.take(j as int))),
            decreases e.labels@.len() - j,
        {
            proof {
                if j == 0 {
                    assert(out@ =~= head + label_lines(views_of(e.labels@.take(0))));
                }
            }
            out.append("  ");
            out.append(e.labels[j].as_str());
            out.append("\n");
            proof {
                lemma_label_lines_push(views_of(e.labels@.take(j as int)), e.labels@[j as int]@);
                assert(views_of(e.labels@.take(j + 1 as int)) =~= views_of(
                    e.labels@.take(j as int),
                ).push(e.labels@[j as int]@));
                assert(out@ =~= head + label_lines(views_of(e.labels@.take(j + 1 as int))));
            }
            j += 1;
        }
        proof {
            assert(e.labels@.take(e.labels@.len() as int) =~= e.labels@);
            lemma_terminal_push(entries@.take(i as int), entries@[i as int]);
            if i == 0 {
                assert(out@ =~= terminal_block(entries@[0]));
            } else {
                assert(out@ =~= terminal_of(entries@.take(i as int)) + ("\n"@ + terminal_block(
                    entries@[i as int],
                )));
            }
            assert(entries@.take(i + 1 as int) =~= entries@.take(i as int).push(
                entries@[i as int],
            ));
        }
        i += 1;
    }
    proof {
        assert(entries@.take(entries@.len() as int) =~= entries@);
        if entries@.len() == 0 {
            assert(out@ =~= terminal_of(entries@));
        }
    }
    out
}

// ---------------------------------------------------------------------------
// JSON rendering: an array of `{ "selector": …, "rules": […] }` objects in
// finalized order, pretty-printed with two-space indentation, property names
// and labels escaped as JSON strings.
// ---------------------------------------------------------------------------
/// The hexadecimal digit character for a value below sixteen.
pub open spec fn hex_digit(d: nat) -> char {
    if d < 10 {
        ((d + 48) as u8) as char
    } else {
        ((d + 87) as u8) as char
    }
}

/// How one character appears inside a JSON string literal: quote and
/// backslash are escaped, the named control characters use their short
/// escapes, other control characters use a `\u00XX` escape, and everything
/// else stands as itself.
pub open spec fn esc_char(c: char) -> Seq<char> {
    if c == '"' {
        "\\\""@
    } else if c == '\\' {
        "\\\\"@
    } else if c == '\u{8}' {
        "\\b"@
    } else if c == '\u{c}' {
        "\\f"@
    } else if c == '\n' {
        "\\n"@
    } else if c == '\r' {
        "\\r"@
    } else if c == '\t' {
        "\\t"@
    } else if (c as u32) < 32 {
        "\\u00"@ + seq![hex_digit(((c as u32) / 16) as nat), hex_digit(((c as u32) % 16) as nat)]
    } else {
        seq![c]
    }
}

pub open spec fn json_escape(s: Seq<char>) -> Seq<char>
    decreases s.len(),
{
    if s.len() == 0 {
        Seq::empty()
    } else {
        esc_char(s.first()) + json_escape(s.drop_first())
    }
}

/// A JSON string literal: the escaped text between double quotes.
pub open spec fn json_string(s: Seq<char>) -> Seq<char> {
    "\""@ + json_escape(s) + "\""@
}

pub open spec fn rules_rest(ls: Seq<Seq<char>>) -> Seq<char>
    decreases ls.len(),
{
    if ls.len() == 0 {
        Seq::empty()
    } else {
        ",\n"@ + "      "@ + json_string(ls.first()) + rules_rest(ls.drop_first())
    }
}

/// The pretty-printed `rules` array of one property.
pub open spec fn rules_block(ls: Seq<Seq<char>>) -> Seq<char> {
    if ls.len() == 0 {
        "[]"@
    } else {
        "[\n"@ + "      "@ + json_string(ls.first()) + rules_rest(ls.drop_first()) + "\n    ]"@
    }
}

/// The pretty-printed object of one property.
pub open spec fn entry_block(e: UsageEntry) -> Seq<char> {
    "  {\n    \"selector\": "@ + json_string(e.name@) + ",\n    \"rules\": "@ + rules_block(
        views_of(e.labels@),
    ) + "\n  }"@
}

pub open spec fn entries_rest(es: Seq<UsageEntry>) -> Seq<char>
    decreases es.len(),
{
    if es.len() == 0 {
        Seq::empty()
    } else {
        ",\n"@ + entry_block(es.first()) + entries_rest(es.drop_first())
    }
}

/// The JSON renderer's entire output for a finalized index.
pub open spec fn json_of(entries: Seq<UsageEntry>) -> Seq<char> {
    if entries.len() == 0 {
        "[]"@
    } else {
        "[\n"@ + entry_block(entries.first()) + entries_rest(entries.drop_first()) + "\n]"@
    }
}

/// The value of a hexadecimal digit character.
pub open spec fn hex_val(c: char) -> nat {
    if (c as u32) >= 97 {
        ((c as u32) - 87) as nat
    } else {
        ((c as u32) - 48) as nat
    }
}

/// The character a short escape stands for; quote, backslash and anything
/// unrecognized stand for themselves.
pub open spec fn unesc_char(e: char) -> char {
    if e == 'b' {
        '\u{8}'
    } else if e == 'f' {
        '\u{c}'
    } else if e == 'n' {
        '\n'
    } else if e == 'r' {
        '\r'
    } else if e == 't' {
        '\t'
    } else {
        e
    }
}

/// A character's Unicode scalar value.
pub open spec fn char_code(c: char) -> u32 {
    c as u32
}

/// The character a four-digit `\u` escape stands for.
pub open spec fn unicode_of(a: char, b: char, c: char, d: char) -> char {
    let v = hex_val(a) * 4096 + hex_val(b) * 256 + hex_val(c) * 16 + hex_val(d);
    choose|ch: char| #[trigger] char_code(ch) == v
}

/// Reading a JSON-escaped text back: each escape sequence is replaced by the
/// character it stands for. On malformed input the dangling tail is dropped;
/// `json_escape` never produces one.
pub open spec fn json_unescape(s: Seq<char>) -> Seq<char>
    decreases s.len(),
{
    if s.len() == 0 {
        Seq::empty()
    } else if s.first() != '\\' {
        seq![s.first()] + json_unescape(s.drop_first())
    } else if s.len() == 1 {
        Seq::empty()
    } else if s[1] == 'u' {
        if s.len() >= 6 {
            seq![unicode_of(s[2], s[3], s[4], s[5])] + json_unescape(s.skip(6))
        } else {
            Seq::empty()
        }
    } else {
        seq![unesc_char(s[1])] + json_unescape(s.skip(2))
    }
}

/// Law (string layer of the JSON round trip): reading an escaped string back
/// restores it exactly, for every string, so the JSON renderer loses no
/// property name and no label text.
pub proof fn lemma_unescape_escape(s: Seq<char>)
    ensures
        json_unescape(json_escape(s)) == s,
    decreases s.len(),
{
    reveal_strlit("\\\"");
    reveal_strlit("\\\\");
    reveal_strlit("\\b");
    reveal_strlit("\\f");
    reveal_strlit("\\n");
    reveal_strlit("\\r");
    reveal_strlit("\\t");
    reveal_strlit("\\u00");
    if s.len() == 0 {
        assert(json_unescape(json_escape(s)) =~= s);
    } else {
        let c = s.first();
        let rest = s.drop_first();
        let t = json_escape(s);
        assert(t == esc_char(c) + json_escape(rest));
        lemma_unescape_escape(rest);
        crate::order::lemma_char_order(c, '\\');
        if c == '"' || c == '\\' || c == '\u{8}' || c == '\u{c}' || c == '\n' || c == '\r' || c
            == '\t' {
            assert(t[0] == '\\');
            assert(t.skip(2) =~= json_escape(rest));
            assert(unesc_char(t[1]) == c);
            assert(json_unescape(t) =~= seq![c] + rest);
            assert(seq![c] + rest =~= s);
        } else if (c as u32) < 32 {
            assert(t[0] == '\\' && t[1] == 'u');
            assert(t.len() >= 6);
            assert(t[2] == '0' && t[3] == '0');
            assert(t[4] == hex_digit(((c as u32) / 16) as nat));
            assert(t[5] == hex_digit(((c as u32) % 16) as nat));
            assert(t.skip(6) =~= json_escape(rest));
            let hi = ((c as u32) / 16) as nat;
            let lo = ((c as u32) % 16) as nat;
            assert(hex_val('0') == 0) by {
                assert('0' as u32 == 48);
            }
            assert(hex_val(hex_digit(hi)) == hi);
            assert(hex_val(hex_digit(lo)) == lo);
            let v = hex_val(t[2]) * 4096 + hex_val(t[3]) * 256 + hex_val(t[4]) * 16 + hex_val(
                t[5],
            );
            assert(v == (c as u32));
            let ch = unicode_of(t[2], t[3], t[4], t[5]);
            assert((c as u32) == v);
            assert((ch as u32) == v) by {
                assert(exists|x: char| #[trigger] char_code(x) == v) by {
                    assert(char_code(c) == v);
                }
            }
            crate::order::lemma_char_order(ch, c);
            assert(ch == c);
            assert(json_unescape(t) =~= seq![c] + rest);
            assert(seq![c] + rest =~= s);
        } else {
            assert(t[0] == c);
            assert(c != '\\');
            assert(t.drop_first() =~= json_escape(rest));
            assert(json_unescape(t) =~= seq![c] + rest);
            assert(seq![c] + rest =~= s);
        }
    }
}

/// Law: JSON escaping never conflates two strings — distinct names or
/// labels stay distinct in the rendered document.
pub proof fn lemma_json_escape_injective(a: Seq<char>, b: Seq<char>)
    requires
        json_escape(a) == json_escape(b),
    ensures
        a == b,
{
    lemma_unescape_escape(a);
    lemma_unescape_escape(b);
}

proof fn lemma_json_escape_push(s: Seq<char>, x: char)
    ensures
        json_escape(s.push(x)) == json_escape(s) + esc_char(x),
    decreases s.len(),
{
    if s.len() == 0 {
        assert(s.push(x).drop_first() =~= s);
        assert(s.push(x).first() == x);
        assert(json_escape(s.push(x)) =~= json_escape(s) + esc_char(x));
    } else {
        assert(s.push(x).drop_first() =~= s.drop_first().push(x));
        assert(s.push(x).first() == s.first());
        lemma_json_escape_push(s.drop_first(), x);
        assert(json_escape(s.push(x)) =~= json_escape(s) + esc_char(x));
    }
}

proof fn lemma_rules_rest_push(ls: Seq<Seq<char>>, x: Seq<char>)
    ensures
        rules_rest(ls.push(x)) == rules_rest(ls) + (",\n"@ + "      "@ + json_string(x)),
    decreases ls.len(),
{
    if ls.len() == 0 {
        assert(ls.push(x).drop_first() =~= ls);
        assert(ls.push(x).first() == x);
        assert(rules_rest(ls.push(x)) =~= rules_rest(ls) + (",\n"@ + "      "@ + json_string(x)));
    } else {
        assert(ls.push(x).drop_first() =~= ls.drop_first().push(x));
        assert(ls.push(x).first() == ls.first());
        lemma_rules_rest_push(ls.drop_first(), x);
        assert(rules_rest(ls.push(x)) =~= rules_rest(ls) + (",\n"@ + "      "@ + json_string(x)));
    }
}

proof fn lemma_entries_rest_push(es: Seq<UsageEntry>, e: UsageEntry)
    ensures
        entries_rest(es.push(e)) == entries_rest(es) + (",\n"@ + entry_block(e)),
    decreases es.len(),
{
    if es.len() == 0 {
        assert(es.push(e).drop_first() =~= es);
        assert(es.push(e).first() == e);
        assert(entries_rest(es.push(e)) =~= entries_rest(es) + (",\n"@ + entry_block(e)));
    } else {
        assert(es.push(e).drop_first() =~= es.drop_first().push(e));
        assert(es.push(e).first() == es.first());
        lemma_entries_rest_push(es.drop_first(), e);
        assert(entries_rest(es.push(e)) =~= entries_rest(es) + (",\n"@ + entry_block(e)));
    }
}

/// Append a character as it appears inside a JSON string literal.
fn append_escaped_char(out: &mut String, c: char)
    ensures
        final(out)@ == old(out)@ + esc_char(c),
{
    if c == '"' {
        out.append("\\\"");
    } else if c == '\\' {
        out.append("\\\\");
    } else if c == '\u{8}' {
        out.append("\\b");
    } else if c == '\u{c}' {
        out.append("\\f");
    } else if c == '\n' {
        out.append("\\n");
    } else if c == '\r' {
        out.append("\\r");
    } else if c == '\t' {
        out.append("\\t");
    } else if (c as u32) < 32 {
        out.append("\\u00");
        let code = c as u32;
        let hi = (code / 16) as u8;
        let lo = (code % 16) as u8;
        let hic = if hi < 10 {
            (hi + 48) as char
        } else {
            (hi + 87) as char
        };
        let loc = if lo < 10 {
            (lo + 48) as char
        } else {
            (lo + 87) as char
        };
        push_char(out, hic);
        push_char(out, loc);
        proof {
            assert(hic == hex_digit(((c as u32) / 16) as nat));
            assert(loc == hex_digit(((c as u32) % 16) as nat));
            assert(final(out)@ =~= old(out)@ + esc_char(c));
        }
    } else {
        push_char(out, c);
        proof {
            assert(final(out)@ =~= old(out)@ + esc_char(c));
        }
    }
}

/// Append a string's JSON-escaped text.
fn append_escaped(out: &mut String, s: &str)
    ensures
        final(out)@ == old(out)@ + json_escape(s@),
{
    let n = s.unicode_len();
    let mut i: usize = 0;
    proof {
        assert(old(out)@ + json_escape(s@.take(0)) =~= old(out)@);
    }
    while i < n
        invariant
            n == s@.len(),
            i <= n,
            out@ == old(out)@ + json_escape(s@.take(i as int)),
        decreases n - i,
    {
        let c = s.get_char(i);
        append_escaped_char(out, c);
        proof {
            lemma_json_escape_push(s@.take(i as int), c);
            assert(s@.take(i + 1 as int) =~= s@.take(i as int).push(c));
            assert(out@ =~= old(out)@ + json_escape(s@.take(i + 1 as int)));
        }
        i += 1;
    }
    proof {
        assert(s@.take(s@.len() as int) =~= s@);
    }
}

/// Append a JSON string literal: quote, escaped text, quote.
fn append_json_string(out: &mut String, s: &str)
    ensures
        final(out)@ == old(out)@ + json_string(s@),
{
    out.append("\"");
    append_escaped(out, s);
    out.append("\"");
    proof {
        assert(final(out)@ =~= old(out)@ + json_string(s@));
    }
}

/// Render the finalized index as JSON: an array of objects holding each
/// property name under `"selector"` and its labels under `"rules"`, in
/// finalized order, pretty-printed with two-space indentation.
#[verifier::rlimit(100)]
#[verifier::spinoff_prover]
pub fn render_json(idx: &UsageIndex) -> (r: String)
    ensures
        r@ == json_of(idx.entries@),
{
    let entries = &idx.entries;
    let mut out = String::new();
    if entries.len() == 0 {
        out.append("[]");
        proof {
            assert(out@ =~= json_of(entries@));
        }
        return out;
    }
    out.append("[\n");
    let mut i: usize = 0;
    while i < entries.len()
        invariant
            1 <= entries@.len(),
            i <= entries@.len(),
            out@ == (if i == 0 {
                "[\n"@
            } else {
                "[\n"@ + entry_block(entries@.first()) + entries_rest(
                    entries@.take(i as int).drop_first(),
                )
            }),
        decreases entries@.len() - i,
    {
        let ghost base = out@;
        if i > 0 {
            out.append(",\n");
        }
        let e = &entries[i];
        out.append("  {\n    \"selector\": ");
        append_json_string(&mut out, e.name.as_str());
        out.append(",\n    \"rules\": ");
        let ghost mid = out@;
        if e.labels.len() == 0 {
            out.append("[]");
        } else {
            out.append("[\n");
            out.append("      ");
            append_json_string(&mut out, e.labels[0].as_str());
            let mut j: usize = 1;
            while j < e.labels.len()
                invariant
                    1 <= j <= e.labels@.len(),
                    out@ == mid + ("[\n"@ + "      "@ + json_string(e.labels@[0]@) + rules_rest(
                        views_of(e.labels@.take(j as int)).drop_first(),
                    )),
                decreases e.labels@.len() - j,
            {
                proof {
                    if j == 1 {
                        assert(views_of(e.labels@.take(1)).drop_first() =~= Seq::<
                            Seq<char>,
                        >::empty());
                        assert(out@ =~= mid + ("[\n"@ + "      "@ + json_string(e.labels@[0]@)
                            + rules_rest(views_of(e.labels@.take(1)).drop_first())));
                    }
                }
                out.append(",\n");
                out.append("      ");
                append_json_string(&mut out, e.labels[j].as_str());
                proof {
                    let prev = views_of(e.labels@.take(j as int)).drop_first();
                    lemma_rules_rest_push(prev, e.labels@[j as int]@);
                    assert(views_of(e.labels@.take(j + 1 as int)).drop_first() =~= prev.push(
                        e.labels@[j as int]@,
                    ));
                    assert(out@ =~= mid + ("[\n"@ + "      "@ + json_string(e.labels@[0]@)
                        + rules_rest(views_of(e.labels@.take(j + 1 as int)).drop_first())));
                }
                j += 1;
            }
            out.append("\n    ]");
            proof {
                assert(e.labels@.take(e.labels@.len() as int) =~= e.labels@);
                assert(views_of(e.labels@).first() == e.labels@[0]@);
            }
        }
        out.append("\n  }");
        proof {
            assert(out@ =~= base + (if i == 0 {
                Seq::<char>::empty()
            } else {
                ",\n"@
            }) + entry_block(entries@[i as int]));
            if i == 0 {
                assert(out@ =~= "[\n"@ + entry_block(entries@.first()) + entries_rest(
                    entries@.take(1).drop_first(),
                ));
            } else {
                let prev = entries@.take(i as int).drop_first();
                lemma_entries_rest_push(prev, entries@[i as int]);
                assert(entries@.take(i + 1 as int).drop_first() =~= prev.push(
                    entries@[i as int],
                ));
                assert(out@ =~= "[\n"@ + entry_block(entries@.first()) + entries_rest(
                    entries@.take(i + 1 as int).drop_first(),
                ));
            }
        }
        i += 1;
    }
    out.append("\n]");
    proof {
        assert(entries@.take(entries@.len() as int) =~= entries@);
        assert(out@ =~= json_of(entries@));
    }
    out
}

} // verus!
