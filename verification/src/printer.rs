//! Rendering: a depth-first walk of a [`Value`] tree that yields indented
//! text — two-space indentation per nesting level, a trailing comma after
//! every object or array entry, and a line break only at the outermost
//! call. The embedding application takes the text to its output.
//!
//! A number is rendered as the numeral text it was scanned from; its
//! double-precision display form is a concern of the unverified embedding.

use vstd::prelude::*;
use vstd::string::StringExecFns;
use crate::parser::SpecValue;
use crate::parser::Value;
use crate::parser::entry_views;
use crate::parser::value_views;

verus! {

/// The rendered text of one value. `ind` is the indentation of the
/// surrounding structure, carried as the literal run of spaces; a line
/// break is appended only when `line_break` is set.
pub open spec fn spec_render(v: SpecValue, ind: Seq<char>, line_break: bool) -> Seq<char>
    decreases v, 1int,
{
    let body = match v {
        SpecValue::Null => "null"@,
        SpecValue::Bool(b) => if b {
            "true"@
        } else {
            "false"@
        },
        SpecValue::Number(s) => s,
        SpecValue::String(s) => "\""@ + s + "\""@,
        SpecValue::Object(es) => "{\n"@ + spec_render_entries(es, ind + "  "@) + ind + "}"@,
        SpecValue::Array(vs) => "[\n"@ + spec_render_items(vs, ind + "  "@) + ind + "]"@,
    };
    if line_break {
        body + "\n"@
    } else {
        body
    }
}

/// The rendered lines of an object's entries: each on its own line, ended
/// by a comma, the last included.
pub open spec fn spec_render_entries(es: Seq<(Seq<char>, SpecValue)>, ind: Seq<char>) -> Seq<char>
    decreases es, 0int,
{
    if es.len() == 0 {
        Seq::empty()
    } else {
        ind + "\""@ + es[0].0 + "\": "@ + spec_render(es[0].1, ind, false) + ",\n"@
            + spec_render_entries(es.drop_first(), ind)
    }
}

/// The rendered lines of an array's items: each on its own line, ended by
/// a comma, the last included.
pub open spec fn spec_render_items(vs: Seq<SpecValue>, ind: Seq<char>) -> Seq<char>
    decreases vs, 0int,
{
    if vs.len() == 0 {
        Seq::empty()
    } else {
        ind + spec_render(vs[0], ind, false) + ",\n"@ + spec_render_items(vs.drop_first(), ind)
    }
}

/// Entry rendering distributes over concatenation of entry lists.
proof fn lemma_render_entries_append(
    es1: Seq<(Seq<char>, SpecValue)>,
    es2: Seq<(Seq<char>, SpecValue)>,
    ind: Seq<char>,
)
    ensures
        spec_render_entries(es1 + es2, ind) == spec_render_entries(es1, ind)
            + spec_render_entries(es2, ind),
    decreases es1.len(),
{
    if es1.len() == 0 {
        assert(es1 + es2 =~= es2);
        assert(spec_render_entries(es1, ind) + spec_render_entries(es2, ind) =~= spec_render_entries(
            es2,
            ind,
        ));
    } else {
        assert((es1 + es2).drop_first() =~= es1.drop_first() + es2);
        assert((es1 + es2)[0] == es1[0]);
        lemma_render_entries_append(es1.drop_first(), es2, ind);
        assert(spec_render_entries(es1 + es2, ind) =~= spec_render_entries(es1, ind)
            + spec_render_entries(es2, ind));
    }
}

/// Item rendering distributes over concatenation of item lists.
proof fn lemma_render_items_append(vs1: Seq<SpecValue>, vs2: Seq<SpecValue>, ind: Seq<char>)
    ensures
        spec_render_items(vs1 + vs2, ind) == spec_render_items(vs1, ind) + spec_render_items(
            vs2,
            ind,
        ),
    decreases vs1.len(),
{
    if vs1.len() == 0 {
        assert(vs1 + vs2 =~= vs2);
        assert(spec_render_items(vs1, ind) + spec_render_items(vs2, ind) =~= spec_render_items(
            vs2,
            ind,
        ));
    } else {
        assert((vs1 + vs2).drop_first() =~= vs1.drop_first() + vs2);
        assert((vs1 + vs2)[0] == vs1[0]);
        lemma_render_items_append(vs1.drop_first(), vs2, ind);
        assert(spec_render_items(vs1 + vs2, ind) =~= spec_render_items(vs1, ind)
            + spec_render_items(vs2, ind));
    }
}

/// The characters of a decoded string whose printed form scans back to
/// itself: no raw quote, and every backslash the first of a verbatim
/// escape pair.
pub open spec fn plain_string_chars(s: Seq<char>) -> bool
    decreases s.len(),
{
    if s.len() == 0 {
        true
    } else if s[0] == '\\' {
        s.len() >= 2 && crate::lexer::is_passthrough_escape(s[1]) && plain_string_chars(s.skip(2))
    } else {
        s[0] != '"' && plain_string_chars(s.drop_first())
    }
}

/// Scanning a plain string followed by its closing quote consumes
/// everything and decodes to the string itself.
proof fn lemma_scan_plain_string(s: Seq<char>, acc: Seq<char>)
    requires
        plain_string_chars(s),
    ensures
        crate::lexer::spec_scan_string(s + seq!['"'], acc, Seq::empty())
            == crate::lexer::ScanStep::Tok(
            crate::lexer::SpecToken::String(acc + s),
            Seq::empty(),
        ),
    decreases s.len(),
{
    let t = s + seq!['"'];
    if s.len() == 0 {
        assert(t[0] == '"');
        assert(acc + s =~= acc);
        assert(t.drop_first() =~= Seq::<char>::empty());
    } else if s[0] == '\\' {
        assert(t[0] == '\\');
        assert(t[1] == s[1]);
        assert(t.skip(2) =~= s.skip(2) + seq!['"']);
        lemma_scan_plain_string(s.skip(2), acc.push('\\').push(s[1]));
        assert(acc.push('\\').push(s[1]) + s.skip(2) =~= acc + s);
    } else {
        assert(t[0] == s[0]);
        assert(t.drop_first() =~= s.drop_first() + seq!['"']);
        lemma_scan_plain_string(s.drop_first(), acc.push(s[0]));
        assert(acc.push(s[0]) + s.drop_first() =~= acc + s);
    }
}

/// Round trip of string literals: printing a string value and scanning
/// the printed text yields exactly one token holding the value's
/// characters again, for every string made of plain characters and
/// verbatim escape pairs. (A decoded string holding a raw quote, or a
/// backslash before a unicode escape marker — both reachable only through
/// unicode escapes such as one for the quote itself — prints to a form
/// that scans differently, and is left out.)
pub proof fn lemma_string_round_trip(s: Seq<char>)
    requires
        plain_string_chars(s),
    ensures
        crate::lexer::spec_tokenize(spec_render(SpecValue::String(s), Seq::empty(), false))
            == Some(seq![crate::lexer::SpecToken::String(s)]),
{
    reveal_strlit("\"");
    let t = spec_render(SpecValue::String(s), Seq::empty(), false);
    assert(t =~= seq!['"'] + (s + seq!['"']));
    assert(t[0] == '"');
    assert(!crate::lexer::is_json_whitespace('"'));
    assert(t.drop_first() =~= s + seq!['"']);
    lemma_scan_plain_string(s, Seq::empty());
    assert(Seq::<char>::empty() + s =~= s);
    assert(crate::lexer::spec_scan(t) == crate::lexer::ScanStep::Tok(
        crate::lexer::SpecToken::String(s),
        Seq::<char>::empty(),
    ));
    assert(crate::lexer::spec_tokenize(Seq::<char>::empty()) == Some(
        Seq::<crate::lexer::SpecToken>::empty(),
    ));
    assert(seq![crate::lexer::SpecToken::String(s)] + Seq::<crate::lexer::SpecToken>::empty()
        =~= seq![crate::lexer::SpecToken::String(s)]);
}

/// The printer, a pure renderer: the embedding prints what it returns.
pub struct JsonPrinter {}

impl JsonPrinter {
    /// The rendered text of the whole tree, ended by a line break.
    pub fn print_json(value: &Value) -> (out: String)
        ensures
            out@ == spec_render(value@, Seq::<char>::empty(), true),
    {
        let mut out = String::new();
        let ind = String::new();
        Self::in_print(value, &ind, true, &mut out);
        proof {
            assert(Seq::<char>::empty() + spec_render(value@, ind@, true) =~= spec_render(
                value@,
                ind@,
                true,
            ));
        }
        out
    }

    /// Appends the rendering of `value` to `out`; `ind` is the
    /// indentation of the surrounding structure.
    fn in_print(value: &Value, ind: &String, line_break: bool, out: &mut String)
        ensures
            final(out)@ == old(out)@ + spec_render(value@, ind@, line_break),
        decreases value, 1int,
    {
        let ghost base = out@;
        match value {
            Value::Null => {
                out.append("null");
            },
            Value::Bool(b) => {
                if *b {
                    out.append("true");
                } else {
                    out.append("false");
                }
            },
            Value::Number(s) => {
                out.append(s.as_str());
            },
            Value::String(s) => {
                out.append("\"");
                out.append(s.as_str());
                out.append("\"");
                proof {
                    assert(base + "\""@ + s@ + "\""@ =~= base + ("\""@ + s@ + "\""@));
                }
            },
            Value::Object(entries) => {
                proof {
                    assert(decreases_to!(value => value->Object_0));
                }
                Self::print_object(entries, ind, out);
            },
            Value::Array(items) => {
                proof {
                    assert(decreases_to!(value => value->Array_0));
                }
                Self::print_array(items, ind, out);
            },
        }
        if line_break {
            out.append("\n");
            proof {
                assert(out@ =~= base + (spec_render(value@, ind@, false) + "\n"@));
            }
        }
    }

    /// Appends the rendering of an object: its entries one per line
    /// between braces.
    #[verifier::loop_isolation(false)]
    fn print_object(entries: &Vec<(String, Value)>, ind: &String, out: &mut String)
        ensures
            final(out)@ == old(out)@ + ("{\n"@ + spec_render_entries(
                entry_views(entries@),
                ind@ + "  "@,
            ) + ind@ + "}"@),
        decreases entries, 0int,
    {
        let ghost base = out@;
        let ghost es = entry_views(entries@);
        out.append("{\n");
        let mut ci = ind.clone();
        ci.append("  ");
        let mut i: usize = 0;
        proof {
            assert(entry_views(entries@.take(0)) =~= Seq::<(Seq<char>, SpecValue)>::empty());
            assert(base + "{\n"@ + spec_render_entries(entry_views(entries@.take(0)), ci@) =~= base
                + "{\n"@);
        }
        while i < entries.len()
            invariant
                i <= entries@.len(),
                ci@ == ind@ + "  "@,
                out@ == base + "{\n"@ + spec_render_entries(
                    entry_views(entries@.take(i as int)),
                    ci@,
                ),
            decreases entries@.len() - i,
        {
            let e = &entries[i];
            out.append(ci.as_str());
            out.append("\"");
            out.append(e.0.as_str());
            out.append("\": ");
            proof {
                assert(decreases_to!(entries => entries@));
                assert(decreases_to!(entries@ => entries@[i as int]));
                assert(decreases_to!(entries@[i as int] => entries@[i as int].1));
                assert(entries@[i as int].1 == e.1);
            }
            Self::in_print(&e.1, &ci, false, out);
            out.append(",\n");
            proof {
                let prefix = entry_views(entries@.take(i as int));
                let one = entry_views(entries@.take((i + 1) as int)).skip(i as int);
                assert(entry_views(entries@.take((i + 1) as int)) =~= prefix + one);
                assert(one[0].0 == entries@[i as int].0@);
                assert(one[0].1 == entries@[i as int].1@);
                assert(one.drop_first().len() == 0);
                assert(spec_render_entries(one.drop_first(), ci@) =~= Seq::<char>::empty());
                lemma_render_entries_append(prefix, one, ci@);
                assert(spec_render_entries(one, ci@) =~= ci@ + "\""@ + one[0].0 + "\": "@
                    + spec_render(one[0].1, ci@, false) + ",\n"@);
                assert(out@ =~= base + "{\n"@ + spec_render_entries(
                    entry_views(entries@.take((i + 1) as int)),
                    ci@,
                ));
            }
            i = i + 1;
        }
        out.append(ind.as_str());
        out.append("}");
        proof {
            assert(entries@.take(entries@.len() as int) =~= entries@);
            assert(out@ =~= base + ("{\n"@ + spec_render_entries(es, ind@ + "  "@) + ind@ + "}"@));
        }
    }

    /// Appends the rendering of an array: its items one per line between
    /// brackets.
    #[verifier::loop_isolation(false)]
    fn print_array(items: &Vec<Value>, ind: &String, out: &mut String)
        ensures
            final(out)@ == old(out)@ + ("[\n"@ + spec_render_items(
                value_views(items@),
                ind@ + "  "@,
            ) + ind@ + "]"@),
        decreases items, 0int,
    {
        let ghost base = out@;
        let ghost vs = value_views(items@);
        out.append("[\n");
        let mut ci = ind.clone();
        ci.append("  ");
        let mut i: usize = 0;
        proof {
            assert(value_views(items@.take(0)) =~= Seq::<SpecValue>::empty());
            assert(base + "[\n"@ + spec_render_items(value_views(items@.take(0)), ci@) =~= base
                + "[\n"@);
        }
        while i < items.len()
            invariant
                i <= items@.len(),
                ci@ == ind@ + "  "@,
                out@ == base + "[\n"@ + spec_render_items(value_views(items@.take(i as int)), ci@),
            decreases items@.len() - i,
        {
            out.append(ci.as_str());
            proof {
                assert(decreases_to!(items => items@));
                assert(decreases_to!(items@ => items@[i as int]));
            }
            Self::in_print(&items[i], &ci, false, out);
            out.append(",\n");
            proof {
                let prefix = value_views(items@.take(i as int));
                let one = value_views(items@.take((i + 1) as int)).skip(i as int);
                assert(value_views(items@.take((i + 1) as int)) =~= prefix + one);
                assert(one[0] == items@[i as int]@);
                assert(one.drop_first().len() == 0);
                assert(spec_render_items(one.drop_first(), ci@) =~= Seq::<char>::empty());
                lemma_render_items_append(prefix, one, ci@);
                assert(spec_render_items(one, ci@) =~= ci@ + spec_render(one[0], ci@, false)
                    + ",\n"@);
                assert(out@ =~= base + "[\n"@ + spec_render_items(
                    value_views(items@.take((i + 1) as int)),
                    ci@,
                ));
            }
            i = i + 1;
        }
        out.append(ind.as_str());
        out.append("]");
        proof {
            assert(items@.take(items@.len() as int) =~= items@);
            assert(out@ =~= base + ("[\n"@ + spec_render_items(vs, ind@ + "  "@) + ind@ + "]"@));
        }
    }
}

} // verus!
