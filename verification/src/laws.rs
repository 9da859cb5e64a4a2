//! Laws of the parser and the resolver, stated and proved over their
//! models.
//!
//! Each proof function here states a property that holds of every input
//! its `requires` admits; the concrete scenarios in the test suite
//! exercise the same properties on chosen values.

use vstd::prelude::*;
use crate::automata::{
    chain_entries, dec_digits, def_valid, dest_kind_char, dest_sym, dest_text, digit_char,
    expand_sequence_m, extends, intern_names, len_tagged, process_state_m, process_statement_m,
    process_statements_m, resolve_defs_m, resolve_from_m, self_keyword_text, substitute_self,
    sym_valid, synth_name, synth_text, table_for_in,
};
use crate::lexer::{
    digit_val, digits_value, ident_syms_alpha, is_alpha, is_digit, lex_all_m,
    lemma_lex_all_idents_alpha,
};
use crate::machine::{dests_for, TableModel};
use crate::statements::{scalar, scalar_chars, Destination, Statement, StatementMatchKind};
use crate::states::StateDefinition;
use crate::syntax::{
    bad_start_errs, empty_name_sym, keywords_interned, kw_return_sym, kw_state_sym,
    lemma_parse_def_bounds, lemma_parse_program_names, missing_name_sym, name_from_tokens,
    parse_m, parse_program_m, parse_state_def_m, starts_definition, SyntaxError,
    SyntaxErrorKind,
};
use crate::tokens::{Token, TokenKind};
use crate::string_interning::{
    distinct_texts, intern_index, intern_insert, lemma_id_injective, lemma_intern_index,
    lemma_intern_index_is_first, lemma_intern_insert_distinct, lemma_intern_resolve,
    lemma_sym_id, sym, InternedString,
};

verus! {

/// Law (return vs. state separation): registering a destination touches
/// exactly one side of a table. A state destination appends to the
/// destination set of its character and leaves every return transition
/// untouched; a return destination sets the return point of its character
/// and leaves every state transition untouched; no other character and
/// not the default is affected either way.
pub proof fn lemma_register_separation(t: TableModel, c: char, d: Destination, c2: char)
    ensures
        ({
            let t2 = t.register(c, d);
            &&& t2.default == t.default
            &&& (match d {
                Destination::State(s) => {
                    &&& t2.ret_at(c2) == t.ret_at(c2)
                    &&& t2.trans_at(c2) == if c2 == c {
                        t.trans_at(c2).push(s)
                    } else {
                        t.trans_at(c2)
                    }
                },
                Destination::Return(x) => {
                    &&& t2.trans_at(c2) == t.trans_at(c2)
                    &&& t2.ret_at(c2) == if c2 == c {
                        Some(x)
                    } else {
                        t.ret_at(c2)
                    }
                },
            })
        }),
{
    match d {
        Destination::State(s) => {
            assert(t.trans.push((c, s)).drop_last() =~= t.trans);
        },
        Destination::Return(x) => {
            assert(t.rets.push((c, x)).drop_last() =~= t.rets);
        },
    }
}

/// Law (range expansion): registering a destination for every character
/// of an inclusive scalar range touches exactly the characters inside the
/// range, and no others. For a state destination each in-range character
/// gains the one destination; for a return destination each in-range
/// character's return point is set; everything else is left as it was.
pub proof fn lemma_register_range(t: TableModel, lo: int, hi: int, d: Destination, c: char)
    ensures
        ({
            let t2 = t.register_all(scalar_chars(lo, hi), d);
            &&& (match d {
                Destination::State(s) => {
                    &&& t2.trans_at(c) == if lo <= c as u32 <= hi {
                        t.trans_at(c).push(s)
                    } else {
                        t.trans_at(c)
                    }
                    &&& t2.ret_at(c) == t.ret_at(c)
                },
                Destination::Return(x) => {
                    &&& t2.ret_at(c) == if lo <= c as u32 <= hi {
                        Some(x)
                    } else {
                        t.ret_at(c)
                    }
                    &&& t2.trans_at(c) == t.trans_at(c)
                },
            })
            &&& t2.default == t.default
        }),
    decreases hi + 1 - lo,
{
    vstd::utf8::char_is_scalar(c);
    if lo > hi {
    } else {
        let rest = scalar_chars(lo + 1, hi);
        if scalar(lo) {
            let lc = (lo as u32) as char;
            let t1 = t.register(lc, d);
            lemma_register_separation(t, lc, d, c);
            lemma_register_range(t1, lo + 1, hi, d, c);
            assert(scalar_chars(lo, hi) == seq![lc] + rest);
            assert((seq![lc] + rest)[0] == lc);
            assert((seq![lc] + rest).drop_first() =~= rest);
            assert(t.register_all(scalar_chars(lo, hi), d) == t1.register_all(rest, d));
            if c as u32 == lo {
                assert(c == lc);
            } else {
                assert(c != lc);
            }
        } else {
            lemma_register_range(t, lo + 1, hi, d, c);
            assert(!(lo <= c as u32 <= hi) <==> !(lo + 1 <= c as u32 <= hi));
        }
    }
}

/// Law (range statement): a statement matching a character range
/// registers its destination for exactly the characters of the range.
pub proof fn lemma_range_statement(
    strs: Seq<Seq<char>>,
    auto: Seq<(InternedString, TableModel)>,
    t: TableModel,
    name: InternedString,
    kw: InternedString,
    stmt: Statement,
    c: char,
)
    requires
        stmt.match_kind is Range,
    ensures
        ({
            let d = substitute_self(stmt.destination, kw, name);
            let range = stmt.match_kind->Range_0;
            let r = process_statement_m(strs, auto, t, name, kw, stmt);
            &&& r.0 == strs
            &&& r.1 == auto
            &&& (match d {
                Destination::State(s) => r.2.trans_at(c) == if range.from_char() as u32 <= c as u32
                    <= range.to_char() as u32 {
                    t.trans_at(c).push(s)
                } else {
                    t.trans_at(c)
                },
                Destination::Return(x) => r.2.ret_at(c) == if range.from_char() as u32 <= c as u32
                    <= range.to_char() as u32 {
                    Some(x)
                } else {
                    t.ret_at(c)
                },
            })
        }),
{
    let d = substitute_self(stmt.destination, kw, name);
    let range = stmt.match_kind->Range_0;
    lemma_register_range(
        t,
        range.from_char() as u32 as int,
        range.to_char() as u32 as int,
        d,
        c,
    );
}

/// Law (self substitution): a destination naming the self keyword is
/// rewritten to the enclosing state's own name, so a state of the shape
/// `state name { c => Self }` compiles to a table whose transition on `c`
/// leads back to `name` itself, never to a state named like the keyword.
pub proof fn lemma_self_substitution(
    strs: Seq<Seq<char>>,
    auto: Seq<(InternedString, TableModel)>,
    kw: InternedString,
    def: StateDefinition,
    c: char,
)
    requires
        def.statements@ =~= seq![
            Statement {
                match_kind: StatementMatchKind::Literal(c),
                destination: Destination::State(kw),
            },
        ],
    ensures
        ({
            let r = process_state_m(strs, auto, kw, def);
            &&& r.0 == strs
            &&& table_for_in(r.1, def.name) == Some(
                TableModel::empty().register(c, Destination::State(def.name)),
            )
            &&& table_for_in(r.1, def.name)->Some_0.trans_at(c) == seq![def.name]
        }),
{
    let name = def.name;
    let stmt = Statement {
        match_kind: StatementMatchKind::Literal(c),
        destination: Destination::State(kw),
    };
    let stmts = def.statements@;
    let t0 = TableModel::empty();
    let t1 = t0.register(c, Destination::State(name));
    assert(stmts[0] == stmt);
    assert(substitute_self(stmt.destination, kw, name) == Destination::State(name));
    let r0 = process_statement_m(strs, auto, t0, name, kw, stmt);
    assert(r0.2 == t1);
    assert(stmts.drop_first() =~= Seq::<Statement>::empty());
    assert(process_statements_m(r0.0, r0.1, r0.2, name, kw, stmts.drop_first()) == r0);
    assert(process_statements_m(strs, auto, t0, name, kw, stmts) == r0);
    let r = process_state_m(strs, auto, kw, def);
    assert(r.1 == r0.1.push((name, t1)));
    assert(r.1.last() == (name, t1));
    assert(r.1.drop_last() =~= auto);
    lemma_register_separation(t0, c, Destination::State(name), c);
    assert(dests_for(t0.trans, c) =~= Seq::<InternedString>::empty());
    assert(t1.trans_at(c) =~= seq![name]);
    assert(table_for_in(r.1, name) == Some(t1));
}

/// `p` is a prefix of `s`.
pub open spec fn seq_prefix<T>(p: Seq<T>, s: Seq<T>) -> bool {
    &&& p.len() <= s.len()
    &&& forall|k: int| 0 <= k < p.len() ==> s[k] == p[k]
}

/// Extending the registration pairs can only extend each character's
/// destination set.
proof fn lemma_dests_prefix(s1: Seq<(char, InternedString)>, s2: Seq<(char, InternedString)>, c: char)
    requires
        seq_prefix(s1, s2),
    ensures
        seq_prefix(dests_for(s1, c), dests_for(s2, c)),
    decreases s2.len(),
{
    if s2.len() == s1.len() {
        assert(s1 =~= s2);
    } else {
        assert(seq_prefix(s1, s2.drop_last()));
        lemma_dests_prefix(s1, s2.drop_last(), c);
    }
}

/// A registered pair is found in its character's destination set.
proof fn lemma_pair_in_dests(s: Seq<(char, InternedString)>, k: int, c: char, x: InternedString)
    requires
        0 <= k < s.len(),
        s[k] == (c, x),
    ensures
        dests_for(s, c).contains(x),
    decreases s.len(),
{
    if k == s.len() - 1 {
        let r = dests_for(s, c);
        assert(r == dests_for(s.drop_last(), c).push(x));
        assert(r[r.len() - 1] == x);
    } else {
        lemma_pair_in_dests(s.drop_last(), k, c, x);
        let r1 = dests_for(s.drop_last(), c);
        let i = choose|i: int| 0 <= i < r1.len() && r1[i] == x;
        if s.last().0 == c {
            assert(dests_for(s, c)[i] == x);
        } else {
            assert(dests_for(s, c)[i] == x);
        }
    }
}

/// Registering a run of characters only appends registration pairs.
proof fn lemma_register_all_trans_prefix(t: TableModel, cs: Seq<char>, d: Destination)
    ensures
        seq_prefix(t.trans, t.register_all(cs, d).trans),
        seq_prefix(t.rets, t.register_all(cs, d).rets),
    decreases cs.len(),
{
    if cs.len() > 0 {
        lemma_register_all_trans_prefix(t.register(cs[0], d), cs.drop_first(), d);
    }
}

/// Resolving one statement only appends registration pairs to the table
/// under construction.
proof fn lemma_statement_trans_prefix(
    strs: Seq<Seq<char>>,
    auto: Seq<(InternedString, TableModel)>,
    t: TableModel,
    name: InternedString,
    kw: InternedString,
    stmt: Statement,
)
    ensures
        seq_prefix(t.trans, process_statement_m(strs, auto, t, name, kw, stmt).2.trans),
        seq_prefix(t.rets, process_statement_m(strs, auto, t, name, kw, stmt).2.rets),
{
    let d = substitute_self(stmt.destination, kw, name);
    match stmt.match_kind {
        StatementMatchKind::Default => {},
        StatementMatchKind::Literal(_) => {},
        StatementMatchKind::Range(r) => {
            lemma_register_all_trans_prefix(t, r.chars(), d);
        },
        StatementMatchKind::Sequence(_) => {},
    }
}

/// Resolving a run of statements only appends registration pairs.
proof fn lemma_statements_trans_prefix(
    strs: Seq<Seq<char>>,
    auto: Seq<(InternedString, TableModel)>,
    t: TableModel,
    name: InternedString,
    kw: InternedString,
    stmts: Seq<Statement>,
)
    ensures
        seq_prefix(t.trans, process_statements_m(strs, auto, t, name, kw, stmts).2.trans),
        seq_prefix(t.rets, process_statements_m(strs, auto, t, name, kw, stmts).2.rets),
    decreases stmts.len(),
{
    if stmts.len() > 0 {
        let r0 = process_statement_m(strs, auto, t, name, kw, stmts[0]);
        lemma_statement_trans_prefix(strs, auto, t, name, kw, stmts[0]);
        lemma_statements_trans_prefix(r0.0, r0.1, r0.2, name, kw, stmts.drop_first());
    }
}

/// Resolving statements can be split at any point: resolving the first
/// `k` and then the rest gives the same outcome as resolving them all.
proof fn lemma_process_statements_split(
    strs: Seq<Seq<char>>,
    auto: Seq<(InternedString, TableModel)>,
    t: TableModel,
    name: InternedString,
    kw: InternedString,
    stmts: Seq<Statement>,
    k: int,
)
    requires
        0 <= k <= stmts.len(),
    ensures
        ({
            let r1 = process_statements_m(strs, auto, t, name, kw, stmts.take(k));
            process_statements_m(r1.0, r1.1, r1.2, name, kw, stmts.skip(k))
                == process_statements_m(strs, auto, t, name, kw, stmts)
        }),
    decreases k,
{
    if k == 0 {
        assert(stmts.take(0) =~= Seq::<Statement>::empty());
        assert(stmts.skip(0) =~= stmts);
    } else {
        assert(stmts.take(k)[0] == stmts[0]);
        assert(stmts.take(k).drop_first() =~= stmts.drop_first().take(k - 1));
        assert(stmts.skip(k) =~= stmts.drop_first().skip(k - 1));
        let r0 = process_statement_m(strs, auto, t, name, kw, stmts[0]);
        lemma_process_statements_split(r0.0, r0.1, r0.2, name, kw, stmts.drop_first(), k - 1);
    }
}

/// Law (nondeterminism preserved): if two statements of one state both
/// match the character `m`, each to a state destination, the resolved
/// table keeps both destinations reachable for `m` — a later registration
/// never overwrites an earlier one.
pub proof fn lemma_nondeterminism_preserved(
    strs: Seq<Seq<char>>,
    auto: Seq<(InternedString, TableModel)>,
    t: TableModel,
    name: InternedString,
    kw: InternedString,
    stmts: Seq<Statement>,
    i: int,
    j: int,
    m: char,
)
    requires
        0 <= i < j < stmts.len(),
        stmts[i].match_kind == StatementMatchKind::Literal(m),
        stmts[j].match_kind == StatementMatchKind::Literal(m),
        stmts[i].destination is State,
        stmts[j].destination is State,
    ensures
        ({
            let r = process_statements_m(strs, auto, t, name, kw, stmts);
            let a = dest_sym(substitute_self(stmts[i].destination, kw, name));
            let b = dest_sym(substitute_self(stmts[j].destination, kw, name));
            &&& r.2.trans_at(m).contains(a)
            &&& r.2.trans_at(m).contains(b)
        }),
{
    let r = process_statements_m(strs, auto, t, name, kw, stmts);
    let a = dest_sym(substitute_self(stmts[i].destination, kw, name));
    let b = dest_sym(substitute_self(stmts[j].destination, kw, name));

    lemma_statement_contribution(strs, auto, t, name, kw, stmts, i, m, a);
    lemma_statement_contribution(strs, auto, t, name, kw, stmts, j, m, b);
}

/// After resolving all statements, the pair a literal statement with a
/// state destination registers is still in the table.
proof fn lemma_statement_contribution(
    strs: Seq<Seq<char>>,
    auto: Seq<(InternedString, TableModel)>,
    t: TableModel,
    name: InternedString,
    kw: InternedString,
    stmts: Seq<Statement>,
    i: int,
    m: char,
    a: InternedString,
)
    requires
        0 <= i < stmts.len(),
        stmts[i].match_kind == StatementMatchKind::Literal(m),
        stmts[i].destination is State,
        a == dest_sym(substitute_self(stmts[i].destination, kw, name)),
    ensures
        process_statements_m(strs, auto, t, name, kw, stmts).2.trans_at(m).contains(a),
{
    let r = process_statements_m(strs, auto, t, name, kw, stmts);
    lemma_process_statements_split(strs, auto, t, name, kw, stmts, i);
    let r1 = process_statements_m(strs, auto, t, name, kw, stmts.take(i));
    let rest = stmts.skip(i);
    assert(rest[0] == stmts[i]);
    assert(rest.len() > 0);
    let r2 = process_statement_m(r1.0, r1.1, r1.2, name, kw, stmts[i]);
    assert(r2.2.trans == r1.2.trans.push((m, a)));
    assert(rest.drop_first() =~= stmts.skip(i + 1));
    assert(process_statements_m(r2.0, r2.1, r2.2, name, kw, stmts.skip(i + 1)) == r);
    lemma_statements_trans_prefix(r2.0, r2.1, r2.2, name, kw, stmts.skip(i + 1));
    assert(seq_prefix(r2.2.trans, r.2.trans));
    assert(r.2.trans[r2.2.trans.len() - 1] == (m, a));
    lemma_pair_in_dests(r.2.trans, r2.2.trans.len() - 1, m, a);
}

/// Interning the synthetic names of a sequence statement produces one
/// handle per position, each resolving to the name text derived from the
/// source state, the destination, the position and the sequence — and to
/// nothing else. Earlier interner entries stay where they are.
proof fn lemma_intern_names_props(
    strs: Seq<Seq<char>>,
    strs0: Seq<Seq<char>>,
    src: InternedString,
    d: Destination,
    seqtext: Seq<char>,
    i: int,
)
    requires
        strs.len() + seqtext.len() - i <= usize::MAX,
        i >= 0,
    ensures
        ({
            let r = intern_names(strs, strs0, src, d, seqtext, i);
            &&& r.1.len() == if i >= seqtext.len() - 1 {
                0
            } else {
                seqtext.len() - 1 - i
            }
            &&& extends(r.0, strs)
            &&& r.0.len() <= strs.len() + r.1.len()
            &&& forall|k: int|
                0 <= k < r.1.len() ==> sym_valid(#[trigger] r.1[k], r.0.len() as int)
                    && r.0[r.1[k].id()] == synth_name(strs0, src, d, i + k, seqtext)
        }),
    decreases seqtext.len() - i,
{
    if i >= seqtext.len() - 1 {
    } else {
        let text = synth_name(strs0, src, d, i, seqtext);
        let s1 = intern_insert(strs, text);
        let symi = sym(intern_index(strs, text));
        lemma_intern_index(strs, text);
        lemma_sym_id(intern_index(strs, text));
        lemma_intern_names_props(s1, strs0, src, d, seqtext, i + 1);
        let r = intern_names(strs, strs0, src, d, seqtext, i);
        let rr = intern_names(s1, strs0, src, d, seqtext, i + 1);
        assert(r.0 == rr.0);
        assert(r.1 == seq![symi] + rr.1);
        assert(s1[symi.id()] == text);
        assert(r.0[symi.id()] == text);
        assert forall|k: int| 0 <= k < r.1.len() implies sym_valid(#[trigger] r.1[k], r.0.len() as int)
            && r.0[r.1[k].id()] == synth_name(strs0, src, d, i + k, seqtext) by {
            if k == 0 {
                assert(r.1[0] == symi);
            } else {
                assert(r.1[k] == rr.1[k - 1]);
            }
        }
    }
}

/// Law (sequence expansion determinism): expanding a sequence statement
/// of `n + 1` characters synthesizes exactly `n` intermediate states,
/// chained so that the `i`-th one consumes the `i + 1`-th character and
/// leads to the next link, the last one to the statement's destination;
/// the source state consumes the first character into the first link. The
/// synthetic names, their handles and the whole topology are a function
/// of the interner state, the source state, the destination and the
/// sequence alone, so compiling the same input again reproduces them.
pub proof fn lemma_sequence_topology(
    strs: Seq<Seq<char>>,
    auto: Seq<(InternedString, TableModel)>,
    t: TableModel,
    src: InternedString,
    seqtext: Seq<char>,
    d: Destination,
)
    requires
        seqtext.len() >= 2,
        strs.len() + seqtext.len() <= usize::MAX,
    ensures
        ({
            let r = expand_sequence_m(strs, auto, t, src, seqtext, d);
            let syms = intern_names(strs, strs, src, d, seqtext, 0).1;
            let chain = chain_entries(syms, seqtext, d);
            &&& syms.len() == seqtext.len() - 1
            &&& chain.len() == seqtext.len() - 1
            &&& r.1 == auto + chain
            &&& r.2 == t.register(seqtext[0], Destination::State(syms[0]))
            &&& extends(r.0, strs)
            &&& forall|k: int|
                0 <= k < syms.len() ==> sym_valid(#[trigger] syms[k], r.0.len() as int)
                    && r.0[syms[k].id()] == synth_name(strs, src, d, k, seqtext)
            &&& forall|k: int|
                0 <= k < chain.len() - 1 ==> #[trigger] chain[k] == (
                    syms[k],
                    TableModel::empty().register(
                        seqtext[k + 1],
                        Destination::State(syms[k + 1]),
                    ),
                )
            &&& chain.last() == (
                syms[syms.len() - 1],
                TableModel::empty().register(seqtext.last(), d),
            )
        }),
{
    lemma_intern_names_props(strs, strs, src, d, seqtext, 0);
}


/// Extension of interner tables is transitive.
proof fn lemma_extends_trans(a: Seq<Seq<char>>, b: Seq<Seq<char>>, c: Seq<Seq<char>>)
    requires
        extends(a, b),
        extends(b, c),
    ensures
        extends(a, c),
{
}

/// Interning synthetic names only appends to the table and keeps its
/// texts distinct.
proof fn lemma_intern_names_shape(
    strs: Seq<Seq<char>>,
    strs0: Seq<Seq<char>>,
    src: InternedString,
    d: Destination,
    seqtext: Seq<char>,
    i: int,
)
    requires
        distinct_texts(strs),
    ensures
        ({
            let r = intern_names(strs, strs0, src, d, seqtext, i);
            extends(r.0, strs) && distinct_texts(r.0)
        }),
    decreases seqtext.len() - i,
{
    if i >= seqtext.len() - 1 {
    } else {
        let text = synth_name(strs0, src, d, i, seqtext);
        let s1 = intern_insert(strs, text);
        lemma_intern_insert_distinct(strs, text);
        lemma_intern_index(strs, text);
        lemma_intern_names_shape(s1, strs0, src, d, seqtext, i + 1);
        lemma_extends_trans(intern_names(s1, strs0, src, d, seqtext, i + 1).0, s1, strs);
    }
}

/// Resolving a statement only appends to the interner table and keeps
/// its texts distinct.
proof fn lemma_statement_shape(
    strs: Seq<Seq<char>>,
    auto: Seq<(InternedString, TableModel)>,
    t: TableModel,
    name: InternedString,
    kw: InternedString,
    stmt: Statement,
)
    requires
        distinct_texts(strs),
    ensures
        ({
            let r = process_statement_m(strs, auto, t, name, kw, stmt);
            extends(r.0, strs) && distinct_texts(r.0)
        }),
{
    match stmt.match_kind {
        StatementMatchKind::Sequence(v) => {
            if v@.len() >= 2 {
                let d = substitute_self(stmt.destination, kw, name);
                lemma_intern_names_shape(strs, strs, name, d, v@, 0);
            }
        },
        _ => {},
    }
}

/// Resolving a run of statements only appends to the interner table and
/// keeps its texts distinct.
proof fn lemma_statements_shape(
    strs: Seq<Seq<char>>,
    auto: Seq<(InternedString, TableModel)>,
    t: TableModel,
    name: InternedString,
    kw: InternedString,
    stmts: Seq<Statement>,
)
    requires
        distinct_texts(strs),
    ensures
        ({
            let r = process_statements_m(strs, auto, t, name, kw, stmts);
            extends(r.0, strs) && distinct_texts(r.0)
        }),
    decreases stmts.len(),
{
    if stmts.len() > 0 {
        let r0 = process_statement_m(strs, auto, t, name, kw, stmts[0]);
        lemma_statement_shape(strs, auto, t, name, kw, stmts[0]);
        lemma_statements_shape(r0.0, r0.1, r0.2, name, kw, stmts.drop_first());
        lemma_extends_trans(
            process_statements_m(r0.0, r0.1, r0.2, name, kw, stmts.drop_first()).0,
            r0.0,
            strs,
        );
    }
}

/// Resolving definitions only appends to the interner table and keeps
/// its texts distinct.
proof fn lemma_defs_shape(
    strs: Seq<Seq<char>>,
    auto: Seq<(InternedString, TableModel)>,
    kw: InternedString,
    defs: Seq<StateDefinition>,
)
    requires
        distinct_texts(strs),
    ensures
        ({
            let r = resolve_defs_m(strs, auto, kw, defs);
            extends(r.0, strs) && distinct_texts(r.0)
        }),
    decreases defs.len(),
{
    if defs.len() > 0 {
        let r0 = process_state_m(strs, auto, kw, defs[0]);
        lemma_statements_shape(
            strs,
            auto,
            TableModel::empty(),
            defs[0].name,
            kw,
            defs[0].statements@,
        );
        lemma_defs_shape(r0.0, r0.1, kw, defs.drop_first());
        lemma_extends_trans(resolve_defs_m(r0.0, r0.1, kw, defs.drop_first()).0, r0.0, strs);
    }
}

/// Once a text stands in a distinct table that extends the table an
/// interning left behind, interning it again finds the same position and
/// changes nothing.
proof fn lemma_intern_replay(s: Seq<Seq<char>>, fin: Seq<Seq<char>>, t: Seq<char>)
    requires
        extends(fin, intern_insert(s, t)),
        distinct_texts(fin),
    ensures
        intern_index(fin, t) == intern_index(s, t),
        intern_insert(fin, t) == fin,
{
    lemma_intern_index(s, t);
    lemma_intern_resolve(s, t);
    let idx = intern_index(s, t);
    let s1 = intern_insert(s, t);
    assert(s1[idx] == t);
    assert(fin[idx] == t);
    assert forall|j: int| 0 <= j < idx implies fin[j] != t by {
        assert(fin[j] == s1[j]);
        assert(s1[j] == s[j]);
    }
    lemma_intern_index_is_first(fin, t, idx);
}

/// Synthetic name texts depend only on the entries their handles point
/// at, so extending the table does not change them.
proof fn lemma_synth_name_stable(
    s0: Seq<Seq<char>>,
    fin: Seq<Seq<char>>,
    src: InternedString,
    d: Destination,
    i: int,
    seqtext: Seq<char>,
)
    requires
        extends(fin, s0),
        sym_valid(src, s0.len() as int),
        sym_valid(dest_sym(d), s0.len() as int),
    ensures
        synth_name(fin, src, d, i, seqtext) == synth_name(s0, src, d, i, seqtext),
{
    assert(fin[src.id()] == s0[src.id()]);
    match d {
        Destination::State(x) => {
            assert(fin[x.id()] == s0[x.id()]);
        },
        Destination::Return(x) => {
            assert(fin[x.id()] == s0[x.id()]);
        },
    }
    assert(dest_text(fin, d) == dest_text(s0, d));
}

/// Re-interning the synthetic names of a sequence statement against the
/// table a first resolution left behind reproduces the same handles and
/// leaves the table unchanged.
proof fn lemma_intern_names_replay(
    s0: Seq<Seq<char>>,
    s: Seq<Seq<char>>,
    fin: Seq<Seq<char>>,
    src: InternedString,
    d: Destination,
    seqtext: Seq<char>,
    i: int,
)
    requires
        extends(s, s0),
        distinct_texts(s),
        extends(fin, intern_names(s, s0, src, d, seqtext, i).0),
        distinct_texts(fin),
        sym_valid(src, s0.len() as int),
        sym_valid(dest_sym(d), s0.len() as int),
    ensures
        intern_names(fin, fin, src, d, seqtext, i).0 == fin,
        intern_names(fin, fin, src, d, seqtext, i).1 == intern_names(
            s,
            s0,
            src,
            d,
            seqtext,
            i,
        ).1,
    decreases seqtext.len() - i,
{
    if i >= seqtext.len() - 1 {
    } else {
        let text = synth_name(s0, src, d, i, seqtext);
        let s1 = intern_insert(s, text);
        lemma_intern_insert_distinct(s, text);
        lemma_intern_names_shape(s1, s0, src, d, seqtext, i + 1);
        lemma_extends_trans(fin, intern_names(s1, s0, src, d, seqtext, i + 1).0, s1);
        lemma_extends_trans(fin, s1, s);
        lemma_extends_trans(fin, s, s0);
        lemma_synth_name_stable(s0, fin, src, d, i, seqtext);
        lemma_intern_replay(s, fin, text);
        lemma_extends_trans(s1, s, s0);
        lemma_intern_names_replay(s0, s1, fin, src, d, seqtext, i + 1);
    }
}

/// Re-expanding a sequence statement against the table a first
/// resolution left behind reproduces the same chain and leaves the table
/// unchanged.
proof fn lemma_expand_replay(
    s: Seq<Seq<char>>,
    fin: Seq<Seq<char>>,
    auto: Seq<(InternedString, TableModel)>,
    t: TableModel,
    src: InternedString,
    seqtext: Seq<char>,
    d: Destination,
)
    requires
        distinct_texts(s),
        extends(fin, expand_sequence_m(s, auto, t, src, seqtext, d).0),
        distinct_texts(fin),
        sym_valid(src, s.len() as int),
        sym_valid(dest_sym(d), s.len() as int),
    ensures
        ({
            let r1 = expand_sequence_m(s, auto, t, src, seqtext, d);
            let r2 = expand_sequence_m(fin, auto, t, src, seqtext, d);
            r2.0 == fin && r2.1 == r1.1 && r2.2 == r1.2
        }),
{
    if seqtext.len() >= 2 {
        lemma_intern_names_replay(s, s, fin, src, d, seqtext, 0);
    }
}

/// Re-resolving a statement against the table a first resolution left
/// behind reproduces the same registrations and leaves the table
/// unchanged.
proof fn lemma_statement_replay(
    s: Seq<Seq<char>>,
    fin: Seq<Seq<char>>,
    auto: Seq<(InternedString, TableModel)>,
    t: TableModel,
    name: InternedString,
    kw: InternedString,
    stmt: Statement,
)
    requires
        distinct_texts(s),
        extends(fin, process_statement_m(s, auto, t, name, kw, stmt).0),
        distinct_texts(fin),
        sym_valid(name, s.len() as int),
        sym_valid(dest_sym(stmt.destination), s.len() as int),
    ensures
        ({
            let r1 = process_statement_m(s, auto, t, name, kw, stmt);
            let r2 = process_statement_m(fin, auto, t, name, kw, stmt);
            r2.0 == fin && r2.1 == r1.1 && r2.2 == r1.2
        }),
{
    let d = substitute_self(stmt.destination, kw, name);
    assert(sym_valid(dest_sym(d), s.len() as int));
    match stmt.match_kind {
        StatementMatchKind::Sequence(v) => {
            lemma_expand_replay(s, fin, auto, t, name, v@, d);
        },
        _ => {},
    }
}

/// Re-resolving a run of statements against the table a first resolution
/// left behind reproduces the same table and leaves the interner
/// unchanged.
proof fn lemma_statements_replay(
    s: Seq<Seq<char>>,
    fin: Seq<Seq<char>>,
    auto: Seq<(InternedString, TableModel)>,
    t: TableModel,
    name: InternedString,
    kw: InternedString,
    stmts: Seq<Statement>,
)
    requires
        distinct_texts(s),
        extends(fin, process_statements_m(s, auto, t, name, kw, stmts).0),
        distinct_texts(fin),
        sym_valid(name, s.len() as int),
        forall|j: int|
            0 <= j < stmts.len() ==> sym_valid(
                dest_sym(#[trigger] stmts[j].destination),
                s.len() as int,
            ),
    ensures
        ({
            let r1 = process_statements_m(s, auto, t, name, kw, stmts);
            let r2 = process_statements_m(fin, auto, t, name, kw, stmts);
            r2.0 == fin && r2.1 == r1.1 && r2.2 == r1.2
        }),
    decreases stmts.len(),
{
    if stmts.len() > 0 {
        let r0 = process_statement_m(s, auto, t, name, kw, stmts[0]);
        lemma_statement_shape(s, auto, t, name, kw, stmts[0]);
        lemma_statements_shape(r0.0, r0.1, r0.2, name, kw, stmts.drop_first());
        lemma_extends_trans(
            fin,
            process_statements_m(r0.0, r0.1, r0.2, name, kw, stmts.drop_first()).0,
            r0.0,
        );
        lemma_statement_replay(s, fin, auto, t, name, kw, stmts[0]);
        assert(forall|j: int|
            0 <= j < stmts.drop_first().len() ==> sym_valid(
                dest_sym(#[trigger] stmts.drop_first()[j].destination),
                s.len() as int,
            ));
        lemma_statements_replay(r0.0, fin, r0.1, r0.2, name, kw, stmts.drop_first());
    }
}

/// Re-resolving definitions against the table a first resolution left
/// behind reproduces the identical automaton and leaves the interner
/// unchanged.
proof fn lemma_defs_replay(
    s: Seq<Seq<char>>,
    fin: Seq<Seq<char>>,
    auto: Seq<(InternedString, TableModel)>,
    kw: InternedString,
    defs: Seq<StateDefinition>,
)
    requires
        distinct_texts(s),
        extends(fin, resolve_defs_m(s, auto, kw, defs).0),
        distinct_texts(fin),
        forall|i: int| 0 <= i < defs.len() ==> def_valid(#[trigger] defs[i], s.len() as int),
    ensures
        ({
            let r1 = resolve_defs_m(s, auto, kw, defs);
            let r2 = resolve_defs_m(fin, auto, kw, defs);
            r2.0 == fin && r2.1 == r1.1
        }),
    decreases defs.len(),
{
    if defs.len() > 0 {
        let def = defs[0];
        let rs = process_statements_m(s, auto, TableModel::empty(), def.name, kw, def.statements@);
        let r0 = process_state_m(s, auto, kw, def);
        lemma_statements_shape(s, auto, TableModel::empty(), def.name, kw, def.statements@);
        lemma_defs_shape(r0.0, r0.1, kw, defs.drop_first());
        lemma_extends_trans(fin, resolve_defs_m(r0.0, r0.1, kw, defs.drop_first()).0, r0.0);
        assert(def_valid(def, s.len() as int));
        lemma_statements_replay(
            s,
            fin,
            auto,
            TableModel::empty(),
            def.name,
            kw,
            def.statements@,
        );
        assert(forall|i: int|
            0 <= i < defs.drop_first().len() ==> def_valid(
                #[trigger] defs.drop_first()[i],
                s.len() as int,
            ));
        lemma_defs_replay(r0.0, fin, r0.1, kw, defs.drop_first());
    }
}

/// Law (compilation idempotence): resolving the same state definitions a
/// second time, against the interner state the first resolution left
/// behind, reproduces the identical automaton — the same tables under the
/// same names, synthetic states included — and leaves the interner as it
/// was.
pub proof fn lemma_resolution_idempotent(strs: Seq<Seq<char>>, defs: Seq<StateDefinition>)
    requires
        distinct_texts(strs),
        forall|i: int| 0 <= i < defs.len() ==> def_valid(#[trigger] defs[i], strs.len() as int),
    ensures
        ({
            let r1 = resolve_from_m(strs, defs);
            let r2 = resolve_from_m(r1.0, defs);
            r2.0 == r1.0 && r2.1 == r1.1
        }),
{
    let kw = sym(intern_index(strs, self_keyword_text()));
    let s1 = intern_insert(strs, self_keyword_text());
    lemma_intern_insert_distinct(strs, self_keyword_text());
    let r1 = resolve_from_m(strs, defs);
    lemma_defs_shape(s1, Seq::empty(), kw, defs);
    assert(extends(r1.0, s1));
    assert(distinct_texts(r1.0));
    lemma_intern_replay(strs, r1.0, self_keyword_text());
    assert(sym(intern_index(r1.0, self_keyword_text())) == kw);
    assert(intern_insert(r1.0, self_keyword_text()) == r1.0);
    assert(forall|i: int|
        0 <= i < defs.len() ==> def_valid(#[trigger] defs[i], s1.len() as int));
    lemma_defs_replay(s1, r1.0, Seq::empty(), kw, defs);
}


/// Decimal renderings are nonempty and consist of digit characters only.
proof fn lemma_dec_digits_are_digits(n: int)
    requires
        n >= 0,
    ensures
        dec_digits(n).len() > 0,
        forall|k: int| 0 <= k < dec_digits(n).len() ==> is_digit(#[trigger] dec_digits(n)[k]),
    decreases n,
{
    if n < 10 {
        assert(is_digit(digit_char(n)));
    } else {
        lemma_dec_digits_are_digits(n / 10);
        assert(is_digit(digit_char(n % 10)));
        let d = dec_digits(n);
        assert forall|k: int| 0 <= k < d.len() implies is_digit(#[trigger] d[k]) by {
            if k < d.len() - 1 {
                assert(d[k] == dec_digits(n / 10)[k]);
            }
        }
    }
}

/// A decimal rendering reads back to the number it renders.
proof fn lemma_digits_value_of_dec(n: int)
    requires
        n >= 0,
    ensures
        digits_value(dec_digits(n)) == n,
    decreases n,
{
    if n < 10 {
        let d = seq![digit_char(n)];
        assert(d.len() == 1);
        assert(d.last() == digit_char(n));
        assert(d.drop_last() =~= Seq::<char>::empty());
        assert(digits_value(d.drop_last()) == 0);
        assert(digits_value(d) == 0 * 10 + digit_val(digit_char(n)));
        assert(digit_val(digit_char(n)) == n);
    } else {
        lemma_digits_value_of_dec(n / 10);
        let d = dec_digits(n / 10).push(digit_char(n % 10));
        assert(d.drop_last() =~= dec_digits(n / 10));
        assert(digit_val(digit_char(n % 10)) == n % 10);
        assert(digits_value(d) == (n / 10) * 10 + n % 10);
        vstd::arithmetic::div_mod::lemma_fundamental_div_mod(n, 10);
    }
}

/// Equal sequences with an equal prefix have equal remainders.
proof fn lemma_cancel_prefix(x: Seq<char>, y1: Seq<char>, y2: Seq<char>)
    requires
        x + y1 == x + y2,
    ensures
        y1 == y2,
{
    assert((x + y1).len() == x.len() + y1.len());
    assert((x + y2).len() == x.len() + y2.len());
    assert(y1.len() == y2.len());
    assert forall|k: int| 0 <= k < y1.len() implies y1[k] == y2[k] by {
        assert((x + y1)[x.len() + k] == y1[k]);
        assert((x + y2)[x.len() + k] == y2[k]);
    }
    assert(y1 =~= y2);
}

/// A decimal rendering followed by a non-digit can be read back
/// unambiguously: the digits end where the first non-digit stands.
proof fn lemma_digit_run_prefix(n1: int, r1: Seq<char>, n2: int, r2: Seq<char>)
    requires
        n1 >= 0,
        n2 >= 0,
        dec_digits(n1) + r1 == dec_digits(n2) + r2,
        r1.len() > 0 ==> !is_digit(r1[0]),
        r2.len() > 0 ==> !is_digit(r2[0]),
    ensures
        n1 == n2,
        r1 == r2,
{
    lemma_dec_digits_are_digits(n1);
    lemma_dec_digits_are_digits(n2);
    let d1 = dec_digits(n1);
    let d2 = dec_digits(n2);
    let t = d1 + r1;
    if d1.len() < d2.len() {
        assert(r1.len() > 0);
        assert(t[d1.len() as int] == r1[0]);
        assert((d2 + r2)[d1.len() as int] == d2[d1.len() as int]);
        assert(is_digit(d2[d1.len() as int]));
        assert(false);
    }
    if d2.len() < d1.len() {
        assert(r2.len() > 0);
        assert(t[d2.len() as int] == d1[d2.len() as int]);
        assert((d2 + r2)[d2.len() as int] == r2[0]);
        assert(is_digit(d1[d2.len() as int]));
        assert(false);
    }
    assert forall|k: int| 0 <= k < d1.len() implies d1[k] == d2[k] by {
        assert(t[k] == d1[k]);
        assert((d2 + r2)[k] == d2[k]);
    }
    assert(d1 =~= d2);
    lemma_digits_value_of_dec(n1);
    lemma_digits_value_of_dec(n2);
    lemma_cancel_prefix(d1, r1, r2);
}

/// A length-tagged component followed by anything can be read back
/// unambiguously.
proof fn lemma_len_tagged_prefix(x1: Seq<char>, r1: Seq<char>, x2: Seq<char>, r2: Seq<char>)
    requires
        len_tagged(x1) + r1 == len_tagged(x2) + r2,
    ensures
        x1 == x2,
        r1 == r2,
{
    let u1 = seq!['_'] + x1 + r1;
    let u2 = seq!['_'] + x2 + r2;
    assert(len_tagged(x1) + r1 =~= dec_digits(x1.len() as int) + u1);
    assert(len_tagged(x2) + r2 =~= dec_digits(x2.len() as int) + u2);
    assert(u1[0] == '_' && !is_digit('_'));
    assert(u2[0] == '_');
    lemma_digit_run_prefix(x1.len() as int, u1, x2.len() as int, u2);
    assert(u1 =~= seq!['_'] + (x1 + r1));
    assert(u2 =~= seq!['_'] + (x2 + r2));
    lemma_cancel_prefix(seq!['_'], x1 + r1, x2 + r2);
    assert forall|k: int| 0 <= k < x1.len() implies x1[k] == x2[k] by {
        assert((x1 + r1)[k] == x1[k]);
        assert((x2 + r2)[k] == x2[k]);
    }
    assert(x1 =~= x2);
    lemma_cancel_prefix(x1, r1, r2);
}

/// The synthetic-name assembly is injective: equal name texts imply
/// equal source texts, destination kinds, destination texts, positions
/// and sequence texts.
#[verifier::rlimit(100)]
proof fn lemma_synth_text_injective(
    a1: Seq<char>,
    kc1: char,
    b1: Seq<char>,
    i1: int,
    s1: Seq<char>,
    a2: Seq<char>,
    kc2: char,
    b2: Seq<char>,
    i2: int,
    s2: Seq<char>,
)
    requires
        i1 >= 0,
        i2 >= 0,
        synth_text(a1, kc1, b1, i1, s1) == synth_text(a2, kc2, b2, i2, s2),
    ensures
        a1 == a2,
        kc1 == kc2,
        b1 == b2,
        i1 == i2,
        s1 == s2,
{
    let t1 = "_to_"@ + seq![kc1, '_'] + len_tagged(b1) + "_intermediate_"@ + dec_digits(i1)
        + "_for_"@ + s1;
    let t2 = "_to_"@ + seq![kc2, '_'] + len_tagged(b2) + "_intermediate_"@ + dec_digits(i2)
        + "_for_"@ + s2;
    assert(synth_text(a1, kc1, b1, i1, s1) =~= len_tagged(a1) + t1);
    assert(synth_text(a2, kc2, b2, i2, s2) =~= len_tagged(a2) + t2);
    lemma_len_tagged_prefix(a1, t1, a2, t2);
    let u1 = seq![kc1, '_'] + len_tagged(b1) + "_intermediate_"@ + dec_digits(i1) + "_for_"@
        + s1;
    let u2 = seq![kc2, '_'] + len_tagged(b2) + "_intermediate_"@ + dec_digits(i2) + "_for_"@
        + s2;
    assert(t1 =~= "_to_"@ + u1);
    assert(t2 =~= "_to_"@ + u2);
    lemma_cancel_prefix("_to_"@, u1, u2);
    assert(u1[0] == kc1);
    assert(u2[0] == kc2);
    let v1 = len_tagged(b1) + "_intermediate_"@ + dec_digits(i1) + "_for_"@ + s1;
    let v2 = len_tagged(b2) + "_intermediate_"@ + dec_digits(i2) + "_for_"@ + s2;
    assert(u1 =~= seq![kc1, '_'] + v1);
    assert(u2 =~= seq![kc1, '_'] + v2);
    lemma_cancel_prefix(seq![kc1, '_'], v1, v2);
    let w1 = "_intermediate_"@ + dec_digits(i1) + "_for_"@ + s1;
    let w2 = "_intermediate_"@ + dec_digits(i2) + "_for_"@ + s2;
    assert(v1 =~= len_tagged(b1) + w1);
    assert(v2 =~= len_tagged(b2) + w2);
    lemma_len_tagged_prefix(b1, w1, b2, w2);
    let z1 = dec_digits(i1) + ("_for_"@ + s1);
    let z2 = dec_digits(i2) + ("_for_"@ + s2);
    assert(w1 =~= "_intermediate_"@ + z1);
    assert(w2 =~= "_intermediate_"@ + z2);
    lemma_cancel_prefix("_intermediate_"@, z1, z2);
    reveal_strlit("_for_");
    assert(("_for_"@ + s1).len() > 0);
    assert(("_for_"@ + s1)[0] == '_');
    assert(("_for_"@ + s2)[0] == '_');
    assert(!is_digit('_'));
    lemma_digit_run_prefix(i1, "_for_"@ + s1, i2, "_for_"@ + s2);
    lemma_cancel_prefix("_for_"@, s1, s2);
}

/// Two valid handles whose texts are equal are the same handle, in a
/// distinct table.
proof fn lemma_text_determines_handle(
    strs: Seq<Seq<char>>,
    s1: InternedString,
    s2: InternedString,
)
    requires
        distinct_texts(strs),
        sym_valid(s1, strs.len() as int),
        sym_valid(s2, strs.len() as int),
        strs[s1.id()] == strs[s2.id()],
    ensures
        s1 == s2,
{
    if s1.id() < s2.id() {
        assert(false);
    }
    if s2.id() < s1.id() {
        assert(false);
    }
    lemma_id_injective(s1, s2);
}

/// Law (synthetic-name uniqueness): two synthetic intermediate states
/// receive the same name only when they belong to the same source state,
/// the same destination, the same position and the same sequence — the
/// chains of two different sequence statements never share a state.
pub proof fn lemma_synthetic_name_injective(
    strs: Seq<Seq<char>>,
    src1: InternedString,
    d1: Destination,
    i1: int,
    sq1: Seq<char>,
    src2: InternedString,
    d2: Destination,
    i2: int,
    sq2: Seq<char>,
)
    requires
        distinct_texts(strs),
        sym_valid(src1, strs.len() as int),
        sym_valid(dest_sym(d1), strs.len() as int),
        sym_valid(src2, strs.len() as int),
        sym_valid(dest_sym(d2), strs.len() as int),
        i1 >= 0,
        i2 >= 0,
        synth_name(strs, src1, d1, i1, sq1) == synth_name(strs, src2, d2, i2, sq2),
    ensures
        src1 == src2,
        d1 == d2,
        i1 == i2,
        sq1 == sq2,
{
    lemma_synth_text_injective(
        strs[src1.id()],
        dest_kind_char(d1),
        dest_text(strs, d1),
        i1,
        sq1,
        strs[src2.id()],
        dest_kind_char(d2),
        dest_text(strs, d2),
        i2,
        sq2,
    );
    lemma_text_determines_handle(strs, src1, src2);
    match (d1, d2) {
        (Destination::State(x1), Destination::State(x2)) => {
            lemma_text_determines_handle(strs, x1, x2);
        },
        (Destination::Return(x1), Destination::Return(x2)) => {
            lemma_cancel_prefix("return_"@, strs[x1.id()], strs[x2.id()]);
            lemma_text_determines_handle(strs, x1, x2);
        },
        _ => {
            assert(dest_kind_char(d1) != dest_kind_char(d2));
        },
    }
}

/// Law (synthetic names clash with no declared state): a synthetic name
/// begins with a digit, so it differs from every name that is empty or
/// does not begin with a digit — in particular from every identifier the
/// lexer can produce, since identifiers begin with a letter.
pub proof fn lemma_synthetic_name_not_identifier(
    strs: Seq<Seq<char>>,
    src: InternedString,
    d: Destination,
    i: int,
    sq: Seq<char>,
    other: Seq<char>,
)
    requires
        i >= 0,
        other.len() == 0 || !is_digit(other[0]),
    ensures
        synth_name(strs, src, d, i, sq) != other,
{
    let a = strs[src.id()];
    let nm = synth_name(strs, src, d, i, sq);
    lemma_dec_digits_are_digits(a.len() as int);
    assert(nm[0] == dec_digits(a.len() as int)[0]);
    assert(is_digit(nm[0]));
    assert(nm.len() > 0);
    if nm == other {
        assert(other.len() > 0);
        assert(other[0] == nm[0]);
        assert(false);
    }
}


/// Law (partial failure, recovery): tokens that begin no definition are
/// each recorded as a diagnostic and skipped; whatever parses after them
/// is kept in full, so malformed input degrades the output locally and
/// never aborts the run.
pub proof fn lemma_partial_failure_skips_bad_starts(
    toks: Seq<Token>,
    i: int,
    k: int,
    kws: InternedString,
    kwr: InternedString,
    en: InternedString,
    mn: InternedString,
)
    requires
        0 <= i <= k <= toks.len(),
        forall|j: int| i <= j < k ==> !starts_definition(#[trigger] toks[j], kws),
    ensures
        ({
            let r = parse_program_m(toks, i, kws, kwr, en, mn);
            let rest = parse_program_m(toks, k, kws, kwr, en, mn);
            &&& r.0 == rest.0
            &&& r.1 == bad_start_errs(toks, i, k) + rest.1
        }),
    decreases k - i,
{
    let r = parse_program_m(toks, i, kws, kwr, en, mn);
    let rest = parse_program_m(toks, k, kws, kwr, en, mn);
    if i == k {
        assert(bad_start_errs(toks, i, k) + rest.1 =~= rest.1);
    } else {
        assert(!starts_definition(toks[i], kws));
        lemma_partial_failure_skips_bad_starts(toks, i + 1, k, kws, kwr, en, mn);
        let r1 = parse_program_m(toks, i + 1, kws, kwr, en, mn);
        let err = SyntaxError {
            kind: SyntaxErrorKind::DefinitionStart,
            token: Some(toks[i]),
        };
        assert(r.0 == r1.0);
        assert(r.1 == seq![err] + r1.1);
        assert(seq![err] + (bad_start_errs(toks, i + 1, k) + rest.1) =~= (seq![err]
            + bad_start_errs(toks, i + 1, k)) + rest.1);
    }
}

/// Law (partial failure, locality): a definition that begins with the
/// `state` keyword — malformed or not — contributes exactly one
/// definition and its diagnostics, and everything after the position it
/// ends at is parsed as if it stood alone: a malformed definition never
/// swallows a later one.
pub proof fn lemma_definition_kept(
    toks: Seq<Token>,
    i: int,
    kws: InternedString,
    kwr: InternedString,
    en: InternedString,
    mn: InternedString,
)
    requires
        0 <= i < toks.len(),
        starts_definition(toks[i], kws),
    ensures
        ({
            let dr = parse_state_def_m(toks, i + 1, kwr, en, mn);
            let r = parse_program_m(toks, i, kws, kwr, en, mn);
            let rest = parse_program_m(toks, dr.at, kws, kwr, en, mn);
            &&& r.0 == seq![dr.def] + rest.0
            &&& r.1 == dr.errs + rest.1
        }),
{
    lemma_parse_def_bounds(toks, i + 1, kwr, en, mn);
}


/// Law (no collision with declared states): every state definition a
/// parse of DSL source produces is named by a text that is empty or
/// begins with a letter or the fallback's `n` — never with a digit. A
/// synthetic intermediate state's name always begins with a digit, so in
/// any interner state that resolution later reaches, a declared state's
/// name and a synthetic state's name are never the same text.
pub proof fn lemma_parsed_names_never_synthetic(
    strs: Seq<Seq<char>>,
    input: Seq<char>,
    pos: int,
    k: int,
    strs2: Seq<Seq<char>>,
    src: InternedString,
    d: Destination,
    i: int,
    sq: Seq<char>,
)
    requires
        0 <= pos <= input.len(),
        strs.len() + input.len() + 4 <= usize::MAX,
        i >= 0,
        0 <= k < parse_m(strs, input, pos).defs.len(),
        extends(strs2, parse_m(strs, input, pos).strs),
    ensures
        ({
            let po = parse_m(strs, input, pos);
            let name = po.defs[k].name;
            &&& 0 <= name.id() < po.strs.len()
            &&& strs2[name.id()] != synth_name(strs2, src, d, i, sq)
        }),
{
    let po = parse_m(strs, input, pos);
    let s1 = intern_insert(strs, "state"@);
    let s2 = intern_insert(s1, "return"@);
    let s3 = intern_insert(s2, ""@);
    let s4 = intern_insert(s3, "no name provided"@);
    assert(s4 == keywords_interned(strs));
    let en = empty_name_sym(strs);
    let mn = missing_name_sym(strs);
    let lr = lex_all_m(s4, input, pos);
    assert(po.strs == lr.strs);
    lemma_lex_all_idents_alpha(s4, input, pos);
    lemma_parse_program_names(
        lr.toks,
        0,
        kw_state_sym(strs),
        kw_return_sym(strs),
        en,
        mn,
    );
    let name = po.defs[k].name;
    assert(name_from_tokens(name, lr.toks, en, mn));
    if name == en {
        lemma_intern_index(s2, ""@);
        lemma_sym_id(intern_index(s2, ""@));
        lemma_intern_resolve(s2, ""@);
        assert(s3[en.id()] == ""@);
        assert(en.id() < s3.len());
        assert(s4[en.id()] == s3[en.id()]);
        assert(lr.strs[en.id()] == s4[en.id()]);
        reveal_strlit("");
        assert(lr.strs[name.id()].len() == 0);
    } else if name == mn {
        lemma_intern_index(s3, "no name provided"@);
        lemma_sym_id(intern_index(s3, "no name provided"@));
        lemma_intern_resolve(s3, "no name provided"@);
        assert(s4[mn.id()] == "no name provided"@);
        assert(mn.id() < s4.len());
        assert(lr.strs[mn.id()] == s4[mn.id()]);
        reveal_strlit("no name provided");
        assert(lr.strs[name.id()][0] == 'n');
        assert(!is_digit(lr.strs[name.id()][0]));
    } else {
        let j = choose|j: int|
            0 <= j < lr.toks.len() && (#[trigger] lr.toks[j]).kind == TokenKind::Identifier(
                name,
            );
        assert(ident_syms_alpha(lr.toks, lr.strs));
        assert(is_alpha(lr.strs[name.id()][0]));
        assert(!is_digit(lr.strs[name.id()][0]));
    }
    let t = po.strs[name.id()];
    assert(strs2[name.id()] == t);
    lemma_synthetic_name_not_identifier(strs2, src, d, i, sq, t);
}

} // verus!
