//! Properties of the library as a whole, stated over the spec functions
//! that the executable functions are proved against.

use vstd::prelude::*;
use crate::ActionV;
use crate::evaluator::{
    EnvV, Vars, Outcome, stmt_outcome, stmts_outcome, script_disposition, expand, expand_from,
    var_value, name_key, is_ascii_text, apply_modifiers, apply_level, precedence, test_holds,
    size_test,
};
use crate::form::{
    FormV, MAX_DEPTH, remaining, stmts_from, stmt_from, block_at, test_list_at, tests_from,
    test_from, string_list_at, continues_chain, atom_form, spec_read_script,
};
use crate::lexer::TokenV;
use crate::message::{
    index_of_from, separator_at, separator_from, HeaderV, apply_header_line, header_lines,
    spec_headers, strip_cr, flush, split_prefix, split_addresses_of,
};
use crate::lexer::{line_end, lemma_line_end_bounds, line_col, spec_tokenize};
use crate::validate::{
    first_unknown, required_names, list_extension_error, extension_error, forms_extension_error,
    command_extension, KindV, undeclared_envelope_word, comparator_scan, patterns_error,
    clauses_error, clause_patterns, list_clauses,
};
use crate::evaluator::is_known_extension;
use crate::{compile_source_outcome, compile_outcome, script_check_error};
use crate::evaluator::{has_header, occurs_at, contains_under, equal_under, Comparator};
use crate::text::eq_ignore_case;
use crate::text::{
    ascii_lower, lower_char, trim, skip_ws_from, skip_ws_back, is_white_space,
    lemma_skip_ws_from_bounds, lemma_skip_ws_back_bounds,
};

verus! {

/// The command and test words differ from one another.
proof fn lemma_words_distinct()
    ensures
        "set"@ != "require"@,
        "set"@ != "if"@,
        "stop"@ != "require"@,
        "stop"@ != "if"@,
        "stop"@ != "discard"@,
        "stop"@ != "keep"@,
        "size"@ != "header"@,
        "size"@ != "address"@,
        "size"@ != "envelope"@,
        "size"@ != "exists"@,
        "over"@ != "under"@,
{
    reveal_strlit("set");
    reveal_strlit("require");
    reveal_strlit("if");
    reveal_strlit("stop");
    reveal_strlit("discard");
    reveal_strlit("keep");
    reveal_strlit("size");
    reveal_strlit("header");
    reveal_strlit("address");
    reveal_strlit("envelope");
    reveal_strlit("exists");
    reveal_strlit("over");
    reveal_strlit("under");
    assert("set"@.len() == 3);
    assert("require"@.len() == 7);
    assert("if"@.len() == 2);
    assert("stop"@.len() == 4);
    assert("discard"@.len() == 7);
    assert("stop"@[0] == 's');
    assert("keep"@[0] == 'k');
    assert("size"@.len() == 4);
    assert("header"@.len() == 6);
    assert("address"@.len() == 7);
    assert("envelope"@.len() == 8);
    assert("exists"@.len() == 6);
    assert("over"@.len() == 4);
    assert("under"@.len() == 5);
}

/// The first index at or after `i` holding `c` is `j` when `s[j]` is `c`
/// and nothing between holds it.
proof fn lemma_index_found(s: Seq<char>, c: char, i: int, j: int)
    requires
        0 <= i <= j < s.len(),
        s[j] == c,
        forall|k: int| i <= k < j ==> s[k] != c,
    ensures
        index_of_from(s, c, i) == Some(j),
    decreases j - i,
{
    if i < j {
        lemma_index_found(s, c, i + 1, j);
    }
}

/// RFC 5229: after `set "name" "value"`, a reference `${ref}` whose
/// lowercased name is the lowercased `name` expands to the value (itself
/// expanded when it was set).  This is what a read gives back of a write.
/// For ASCII names (all that RFC 5229 allows) see
/// [`set_then_read_ascii`].
pub proof fn set_then_read(env: EnvV, vars: Vars, name: Seq<char>, value: Seq<char>, reference: Seq<char>)
    requires
        env.variables_enabled,
        name_key(name) == ascii_lower(reference),
        !reference.contains('}'),
    ensures
        ({
            let after = stmt_outcome(seq![FormV::Word("set"@), FormV::Str(name), FormV::Str(value)], env, vars);
            &&& after.0 == Outcome::Continue
            &&& expand("${"@ + reference + "}"@, true, after.1) == expand(value, true, vars)
        }),
{
    reveal_strlit("set");
    reveal_strlit("require");
    reveal_strlit("if");
    reveal_strlit("${");
    reveal_strlit("}");
    let stmt = seq![FormV::Word("set"@), FormV::Str(name), FormV::Str(value)];
    assert(stmt.len() == 3);
    assert(stmt[0] == FormV::Word("set"@));
    let rest = stmt.subrange(1, 3);
    assert(rest[1] == FormV::Str(value));
    assert(rest[0] == FormV::Str(name));
    assert(crate::evaluator::leading_tags(rest) == 0);
    let mods = crate::evaluator::tag_names(rest, 0);
    assert(mods =~= Seq::<Seq<char>>::empty());
    let v = expand(value, env.variables_enabled, vars);
    assert(apply_modifiers(v, mods) == v);
    assert(crate::evaluator::set_outcome(rest, env, vars) == vars.insert(name_key(name), v));
    let after = stmt_outcome(stmt, env, vars);
    assert(!crate::evaluator::string_command(stmt, "fileinto"@));
    lemma_words_distinct();
    assert(stmt[0]->Word_0 == "set"@);
    assert(!crate::evaluator::word_command(stmt, "keep"@));
    assert(after == (Outcome::Continue, crate::evaluator::set_outcome(rest, env, vars)));
    let s = "${"@ + reference + "}"@;
    let c: int = 2 + reference.len() as int;
    assert(s[0] == '$' && s[1] == '{');
    assert(s[c] == '}');
    assert forall|k: int| 2 <= k < c implies s[k] != '}' by {
        assert(s[k] == reference[k - 2]);
    }
    lemma_index_found(s, '}', 2, c);
    assert(s.subrange(2, c) =~= reference);
    assert(expand_from(s, c + 1, after.1) =~= Seq::<char>::empty());
    assert(var_value(after.1, ascii_lower(reference)) == v);
    assert(expand_from(s, 0, after.1) =~= v);
}

/// RFC 5229 §3: without the variables extension, strings are used as
/// written: `${...}` is not substituted.
pub proof fn no_substitution_without_variables(s: Seq<char>, vars: Vars)
    ensures
        expand(s, false, vars) == s,
{
}

/// RFC 5229 §3: variable names are case-insensitive: after
/// `set "name" "value"` with an ASCII name, `${ref}` for any `ref` equal to
/// `name` ignoring ASCII case expands to the value.
pub proof fn set_then_read_ascii(env: EnvV, vars: Vars, name: Seq<char>, value: Seq<char>, reference: Seq<char>)
    requires
        env.variables_enabled,
        is_ascii_text(name),
        ascii_lower(name) == ascii_lower(reference),
        !reference.contains('}'),
    ensures
        ({
            let after = stmt_outcome(seq![FormV::Word("set"@), FormV::Str(name), FormV::Str(value)], env, vars);
            &&& after.0 == Outcome::Continue
            &&& expand("${"@ + reference + "}"@, true, after.1) == expand(value, true, vars)
        }),
{
    set_then_read(env, vars, name, value, reference);
}

/// Evaluation stops at the first statement that takes an action or
/// `stop`s: what follows it does not matter.
pub proof fn first_disposition_wins(first: Seq<FormV>, rest: Seq<Seq<FormV>>, env: EnvV)
    requires
        !(stmt_outcome(first, env, Map::empty()).0 is Continue),
    ensures
        script_disposition(seq![first] + rest, env) == crate::evaluator::disposition(
            Some(stmt_outcome(first, env, Map::empty()).0),
        ),
{
    let script = seq![first] + rest;
    assert(script[0] == first);
}

/// `stop` ends the script with the implicit keep (RFC 5228 §3.3).
pub proof fn stop_keeps(rest: Seq<Seq<FormV>>, env: EnvV)
    ensures
        script_disposition(seq![seq![FormV::Word("stop"@)]] + rest, env) == ActionV::Keep,
{
    reveal_strlit("stop");
    reveal_strlit("require");
    reveal_strlit("if");
    reveal_strlit("discard");
    reveal_strlit("keep");
    let st = seq![FormV::Word("stop"@)];
    assert(st.len() == 1 && st[0] == FormV::Word("stop"@));
    assert(crate::evaluator::word_command(st, "stop"@));
    lemma_words_distinct();
    assert(st[0]->Word_0 == "stop"@);
    assert(stmt_outcome(st, env, Map::empty()).0 == Outcome::Stop);
    first_disposition_wins(st, rest, env);
}

/// A script that only declares extensions takes the implicit keep
/// (RFC 5228 §2.10.2).
pub proof fn requires_only_keep(script: Seq<Seq<FormV>>, env: EnvV)
    requires
        forall|i: int| 0 <= i < script.len() ==> (#[trigger] script[i]).len() > 0 && script[i][0] == FormV::Word("require"@),
    ensures
        script_disposition(script, env) == ActionV::Keep,
{
    lemma_requires_continue(script, env, Map::empty());
}

proof fn lemma_requires_continue(script: Seq<Seq<FormV>>, env: EnvV, vars: Vars)
    requires
        forall|i: int| 0 <= i < script.len() ==> (#[trigger] script[i]).len() > 0 && script[i][0] == FormV::Word("require"@),
    ensures
        stmts_outcome(script, env, vars).0 is None,
    decreases script.len(),
{
    if script.len() > 0 {
        let tail = script.subrange(1, script.len() as int);
        assert forall|i: int| 0 <= i < tail.len() implies (#[trigger] tail[i]).len() > 0 && tail[i][0] == FormV::Word("require"@) by {
            assert(tail[i] == script[i + 1]);
        }
        assert(script[0].len() > 0);
        assert(stmt_outcome(script[0], env, vars) == (Outcome::Continue, vars));
        lemma_requires_continue(tail, env, vars);
        assert(script.subrange(1, script.len() as int) == tail);
    }
}

/// RFC 5228 §2.9: a statement whose command is unknown is ignored: it
/// continues and changes no variable.
pub proof fn unknown_commands_ignored(stmt: Seq<FormV>, w: Seq<char>, env: EnvV, vars: Vars)
    requires
        stmt.len() > 0,
        stmt[0] == FormV::Word(w),
        w != "require"@ && w != "if"@ && w != "fileinto"@ && w != "reject"@ && w != "redirect"@,
        w != "discard"@ && w != "keep"@ && w != "stop"@ && w != "set"@,
    ensures
        stmt_outcome(stmt, env, vars) == (Outcome::Continue, vars),
{
}

/// An unknown test is false (and `not` of it true).
pub proof fn unknown_tests_fail(forms: Seq<FormV>, w: Seq<char>, env: EnvV, vars: Vars)
    requires
        forms.len() > 0,
        forms[0] == FormV::Word(w),
        w != "header"@ && w != "address"@ && w != "envelope"@ && w != "exists"@ && w != "size"@,
        w != "allof"@ && w != "anyof"@ && w != "not"@ && w != "true"@,
    ensures
        !test_holds(forms, env, vars),
{
}

/// RFC 5229 §4: two modifiers of different precedence give the same value
/// in either order.
pub proof fn modifier_order_irrelevant(v: Seq<char>, a: Seq<char>, b: Seq<char>)
    requires
        precedence(a) != precedence(b),
    ensures
        apply_modifiers(v, seq![a, b]) == apply_modifiers(v, seq![b, a]),
{
    let ab = seq![a, b];
    let ba = seq![b, a];
    assert(ab.drop_last() =~= seq![a]);
    assert(ba.drop_last() =~= seq![b]);
    assert(seq![a].drop_last() =~= Seq::<Seq<char>>::empty());
    assert(seq![b].drop_last() =~= Seq::<Seq<char>>::empty());
    assert forall|w: Seq<char>, level: nat| #[trigger] apply_level(w, ab, level) == apply_level(w, ba, level) by {
        reveal_with_fuel(apply_level, 3);
        assert(ab.last() == b);
        assert(ba.last() == a);
        assert(seq![a].last() == a);
        assert(seq![b].last() == b);
    }
}

/// How often `m` occurs in `mods`.
pub open spec fn count_of(mods: Seq<Seq<char>>, m: Seq<char>) -> nat
    decreases mods.len(),
{
    if mods.len() == 0 {
        0
    } else {
        count_of(mods.drop_last(), m) + if mods.last() == m {
            1nat
        } else {
            0nat
        }
    }
}

/// A modifier applied `k` times.
pub open spec fn apply_times(v: Seq<char>, m: Seq<char>, k: nat) -> Seq<char>
    decreases k,
{
    if k == 0 {
        v
    } else {
        crate::evaluator::apply_modifier(apply_times(v, m, (k - 1) as nat), m)
    }
}

proof fn lemma_count_multiset(mods: Seq<Seq<char>>, m: Seq<char>)
    ensures
        count_of(mods, m) == mods.to_multiset().count(m),
        (count_of(mods, m) > 0) == mods.contains(m),
    decreases mods.len(),
{
    broadcast use vstd::seq_lib::group_to_multiset_ensures;
    if mods.len() == 0 {
        assert(mods.to_multiset() =~= vstd::multiset::Multiset::<Seq<char>>::empty());
    } else {
        let d = mods.drop_last();
        lemma_count_multiset(d, m);
        assert(d.push(mods.last()) =~= mods);
        assert(mods.to_multiset() =~= d.to_multiset().insert(mods.last()));
        if mods.contains(m) && mods.last() != m {
            let i = choose|i: int| 0 <= i < mods.len() && mods[i] == m;
            assert(i < d.len() && d[i] == m);
        }
        if d.contains(m) {
            let i = choose|i: int| 0 <= i < d.len() && d[i] == m;
            assert(mods[i] == m);
        }
        if mods.last() == m {
            assert(mods[mods.len() - 1] == m);
        }
    }
}

proof fn lemma_level_uniform(v: Seq<char>, mods: Seq<Seq<char>>, level: nat, m: Seq<char>)
    requires
        precedence(m) == level,
        forall|i: int| 0 <= i < mods.len() && precedence(#[trigger] mods[i]) == level ==> mods[i] == m,
    ensures
        apply_level(v, mods, level) == apply_times(v, m, count_of(mods, m)),
    decreases mods.len(),
{
    if mods.len() > 0 {
        let d = mods.drop_last();
        assert forall|i: int| 0 <= i < d.len() && precedence(#[trigger] d[i]) == level implies d[i] == m by {
            assert(d[i] == mods[i]);
        }
        lemma_level_uniform(v, d, level, m);
        assert(mods.last() == mods[mods.len() - 1]);
    }
}

proof fn lemma_modifier_names()
    ensures
        precedence("lower"@) == 40,
        precedence("upper"@) == 40,
        precedence("length"@) == 30,
        precedence("quotewildcard"@) == 20,
        precedence("firstline"@) == 10,
{
    reveal_strlit("lower");
    reveal_strlit("upper");
    reveal_strlit("length");
    reveal_strlit("quotewildcard");
    reveal_strlit("firstline");
    assert("lower"@.len() == 5 && "upper"@.len() == 5 && "length"@.len() == 6);
    assert("quotewildcard"@.len() == 13 && "firstline"@.len() == 9);
}

/// RFC 5229 §4: the modifiers of a `set` apply in precedence order
/// whatever their order in the script: reordering them (without both
/// `:lower` and `:upper`, which share a precedence) gives the same value.
pub proof fn modifier_order_irrelevant_for_permutations(v: Seq<char>, m1: Seq<Seq<char>>, m2: Seq<Seq<char>>)
    requires
        m1.to_multiset() == m2.to_multiset(),
        !(m1.contains("lower"@) && m1.contains("upper"@)),
    ensures
        apply_modifiers(v, m1) == apply_modifiers(v, m2),
{
    lemma_modifier_names();
    let top: Seq<char> = if m1.contains("upper"@) {
        "upper"@
    } else {
        "lower"@
    };
    lemma_count_multiset(m1, "lower"@);
    lemma_count_multiset(m2, "lower"@);
    lemma_count_multiset(m1, "upper"@);
    lemma_count_multiset(m2, "upper"@);
    assert forall|mods: Seq<Seq<char>>, w: Seq<char>|
        mods.to_multiset() == m1.to_multiset() implies (#[trigger] apply_level(w, mods, 40)) == apply_times(w, top, count_of(mods, top))
    by {
        lemma_count_multiset(mods, "lower"@);
        lemma_count_multiset(mods, "upper"@);
        assert forall|i: int| 0 <= i < mods.len() && precedence(#[trigger] mods[i]) == 40 implies mods[i] == top by {
            assert(mods.contains(mods[i]));
        }
        lemma_level_uniform(w, mods, 40, top);
    }
    let names: Seq<Seq<char>> = seq!["length"@, "quotewildcard"@, "firstline"@];
    let levels: Seq<nat> = seq![30nat, 20nat, 10nat];
    assert forall|mods: Seq<Seq<char>>, w: Seq<char>, k: int| 0 <= k < 3 implies
        (#[trigger] apply_level(w, mods, levels[k])) == apply_times(w, names[k], count_of(mods, names[k]))
    by {
        lemma_level_uniform(w, mods, levels[k], names[k]);
    }
    lemma_count_multiset(m1, "length"@);
    lemma_count_multiset(m2, "length"@);
    lemma_count_multiset(m1, "quotewildcard"@);
    lemma_count_multiset(m2, "quotewildcard"@);
    lemma_count_multiset(m1, "firstline"@);
    lemma_count_multiset(m2, "firstline"@);
    let a1 = apply_level(v, m1, 40);
    let a2 = apply_level(v, m2, 40);
    assert(a1 == a2);
    assert(apply_level(a1, m1, levels[0]) == apply_level(a2, m2, levels[0]));
    let b1 = apply_level(a1, m1, 30);
    assert(apply_level(b1, m1, levels[1]) == apply_level(b1, m2, levels[1]));
    let c1 = apply_level(b1, m1, 20);
    assert(apply_level(c1, m1, levels[2]) == apply_level(c1, m2, levels[2]));
}

/// `size :over n` and `size :under n` never both hold, and for a message
/// of exactly `n` bytes neither does (a limit beyond `usize` reads as
/// `usize::MAX`, which no message exceeds).
pub proof fn size_over_under_exclusive(n: u64, env: EnvV, vars: Vars)
    ensures
        !(test_holds(seq![FormV::Word("size"@), FormV::Tag("over"@), FormV::Num(n)], env, vars)
            && test_holds(seq![FormV::Word("size"@), FormV::Tag("under"@), FormV::Num(n)], env, vars)),
        env.size == n && n <= usize::MAX ==> !test_holds(seq![FormV::Word("size"@), FormV::Tag("over"@), FormV::Num(n)], env, vars)
            && !test_holds(seq![FormV::Word("size"@), FormV::Tag("under"@), FormV::Num(n)], env, vars),
{
    reveal_strlit("size");
    reveal_strlit("header");
    reveal_strlit("address");
    reveal_strlit("envelope");
    reveal_strlit("exists");
    reveal_strlit("over");
    reveal_strlit("under");
    let o = seq![FormV::Word("size"@), FormV::Tag("over"@), FormV::Num(n)];
    let u = seq![FormV::Word("size"@), FormV::Tag("under"@), FormV::Num(n)];
    assert(o.len() == 3 && o[0] == FormV::Word("size"@));
    assert(u.len() == 3 && u[0] == FormV::Word("size"@));
    lemma_words_distinct();
    assert(o[0]->Word_0 == "size"@ && u[0]->Word_0 == "size"@);
    let ro = o.subrange(1, 3);
    let ru = u.subrange(1, 3);
    assert(ro.drop_last() =~= seq![FormV::Tag("over"@)]);
    assert(ru.drop_last() =~= seq![FormV::Tag("under"@)]);
    assert(seq![FormV::Tag("over"@)].drop_last() =~= Seq::<FormV>::empty());
    assert(seq![FormV::Tag("under"@)].drop_last() =~= Seq::<FormV>::empty());
    reveal_with_fuel(crate::evaluator::size_args, 3);
    assert(crate::evaluator::size_args(ro) == (Some(crate::evaluator::SizeDir::Over), Some(n)));
    assert(crate::evaluator::size_args(ru) == (Some(crate::evaluator::SizeDir::Under), Some(n)));
    assert(test_holds(o, env, vars) == size_test(ro, env.size));
    assert(test_holds(u, env, vars) == size_test(ru, env.size));
}

/// RFC 5228 §5.9: `size :over n` holds exactly when the message is
/// strictly larger than `n` bytes, `size :under n` exactly when it is
/// strictly smaller; without the tag or without the number the test fails.
pub proof fn size_comparisons(n: u64, env: EnvV, vars: Vars)
    requires
        n <= usize::MAX,
    ensures
        test_holds(seq![FormV::Word("size"@), FormV::Tag("over"@), FormV::Num(n)], env, vars) == (env.size > n),
        test_holds(seq![FormV::Word("size"@), FormV::Tag("under"@), FormV::Num(n)], env, vars) == (env.size < n),
        !test_holds(seq![FormV::Word("size"@), FormV::Num(n)], env, vars),
        !test_holds(seq![FormV::Word("size"@), FormV::Tag("over"@)], env, vars),
        !test_holds(seq![FormV::Word("size"@), FormV::Tag("under"@)], env, vars),
{
    size_over_under_exclusive(n, env, vars);
    lemma_words_distinct();
    let o = seq![FormV::Word("size"@), FormV::Tag("over"@), FormV::Num(n)];
    let u = seq![FormV::Word("size"@), FormV::Tag("under"@), FormV::Num(n)];
    let a = seq![FormV::Word("size"@), FormV::Num(n)];
    let b = seq![FormV::Word("size"@), FormV::Tag("over"@)];
    let c = seq![FormV::Word("size"@), FormV::Tag("under"@)];
    assert(o.len() == 3 && o[0] == FormV::Word("size"@) && o[0]->Word_0 == "size"@);
    assert(u.len() == 3 && u[0] == FormV::Word("size"@) && u[0]->Word_0 == "size"@);
    assert(a.len() == 2 && a[0] == FormV::Word("size"@) && a[0]->Word_0 == "size"@);
    assert(b.len() == 2 && b[0] == FormV::Word("size"@) && b[0]->Word_0 == "size"@);
    assert(c.len() == 2 && c[0] == FormV::Word("size"@) && c[0]->Word_0 == "size"@);
    let ro = o.subrange(1, 3);
    let ru = u.subrange(1, 3);
    let ra = a.subrange(1, 2);
    let rb = b.subrange(1, 2);
    let rc = c.subrange(1, 2);
    assert(ro.drop_last() =~= seq![FormV::Tag("over"@)]);
    assert(ru.drop_last() =~= seq![FormV::Tag("under"@)]);
    assert(ra =~= seq![FormV::Num(n)]);
    assert(rb =~= seq![FormV::Tag("over"@)]);
    assert(rc =~= seq![FormV::Tag("under"@)]);
    assert(seq![FormV::Tag("over"@)].drop_last() =~= Seq::<FormV>::empty());
    assert(seq![FormV::Tag("under"@)].drop_last() =~= Seq::<FormV>::empty());
    assert(seq![FormV::Num(n)].drop_last() =~= Seq::<FormV>::empty());
    reveal_with_fuel(crate::evaluator::size_args, 3);
    assert(crate::evaluator::size_args(ro) == (Some(crate::evaluator::SizeDir::Over), Some(n)));
    assert(crate::evaluator::size_args(ru) == (Some(crate::evaluator::SizeDir::Under), Some(n)));
    assert(crate::evaluator::size_args(ra) == (None::<crate::evaluator::SizeDir>, Some(n)));
    assert(crate::evaluator::size_args(rb) == (Some(crate::evaluator::SizeDir::Over), None::<u64>));
    assert(crate::evaluator::size_args(rc) == (Some(crate::evaluator::SizeDir::Under), None::<u64>));
    assert(test_holds(o, env, vars) == size_test(ro, env.size));
    assert(test_holds(u, env, vars) == size_test(ru, env.size));
    assert(test_holds(a, env, vars) == size_test(ra, env.size));
    assert(test_holds(b, env, vars) == size_test(rb, env.size));
    assert(test_holds(c, env, vars) == size_test(rc, env.size));
}

proof fn lemma_occurs_lowered(h: Seq<char>, n: Seq<char>, i: int)
    ensures
        occurs_at(h, n, i, Comparator::AsciiCasemap) == occurs_at(ascii_lower(h), ascii_lower(n), i, Comparator::Octet),
{
    let lh = ascii_lower(h);
    let ln = ascii_lower(n);
    if 0 <= i && i + n.len() <= h.len() {
        let w = h.subrange(i, i + n.len());
        if eq_ignore_case(w, n) {
            assert(lh.subrange(i, i + ln.len()) =~= ln) by {
                assert forall|k: int| 0 <= k < ln.len() implies lh.subrange(i, i + ln.len())[k] == ln[k] by {
                    assert(w[k] == h[i + k]);
                }
            }
        }
        if lh.subrange(i, i + ln.len()) == ln {
            assert forall|k: int| 0 <= k < w.len() implies lower_char(w[k]) == lower_char(n[k]) by {
                assert(lh.subrange(i, i + ln.len())[k] == ln[k]);
                assert(w[k] == h[i + k]);
            }
        }
    }
}

/// RFC 4790 `i;ascii-casemap`: `:contains` is a substring search after
/// ASCII-lowercasing both strings (`i;octet` is the plain search), and
/// `:is` compares the lowercased strings; the empty key is contained in
/// every value.
pub proof fn casemap_is_lowercase_comparison(h: Seq<char>, n: Seq<char>)
    ensures
        contains_under(h, n, Comparator::AsciiCasemap) == contains_under(ascii_lower(h), ascii_lower(n), Comparator::Octet),
        contains_under(h, n, Comparator::Octet) == (n.len() == 0 || exists|i: int|
            0 <= i && i + n.len() <= h.len() && #[trigger] h.subrange(i, i + n.len()) == n),
        equal_under(h, n, Comparator::AsciiCasemap) == (ascii_lower(h) == ascii_lower(n)),
        contains_under(h, Seq::empty(), Comparator::AsciiCasemap),
        contains_under(h, Seq::empty(), Comparator::Octet),
{
    let lh = ascii_lower(h);
    let ln = ascii_lower(n);
    if contains_under(h, n, Comparator::AsciiCasemap) && n.len() > 0 {
        let i = choose|i: int| occurs_at(h, n, i, Comparator::AsciiCasemap);
        lemma_occurs_lowered(h, n, i);
    }
    if contains_under(lh, ln, Comparator::Octet) && ln.len() > 0 {
        let i = choose|i: int| occurs_at(lh, ln, i, Comparator::Octet);
        lemma_occurs_lowered(h, n, i);
    }
    if n.len() > 0 && exists|i: int| 0 <= i && i + n.len() <= h.len() && #[trigger] h.subrange(i, i + n.len()) == n {
        let i = choose|i: int| 0 <= i && i + n.len() <= h.len() && #[trigger] h.subrange(i, i + n.len()) == n;
        assert(occurs_at(h, n, i, Comparator::Octet));
    }
    if eq_ignore_case(h, n) {
        assert forall|k: int| 0 <= k < lh.len() implies lh[k] == ln[k] by {}
        assert(lh =~= ln);
    }
    if lh == ln {
        assert forall|k: int| 0 <= k < h.len() implies lower_char(h[k]) == lower_char(n[k]) by {
            assert(lh[k] == ln[k]);
        }
    }
}

// ---------------------------------------------------------------------------
// Messages
// ---------------------------------------------------------------------------

/// The header/body separator found is the first one: a `\n\n` in the
/// headers is never passed over for a later `\r\n\r\n`, nor the reverse.
pub proof fn header_end_is_first_separator(raw: Seq<u8>)
    ensures
        separator_from(raw, 0) matches Some(p) ==> 0 <= p < raw.len() && separator_at(raw, p)
            && forall|q: int| 0 <= q < p ==> !separator_at(raw, q),
        separator_from(raw, 0) is None ==> forall|q: int| 0 <= q < raw.len() ==> !separator_at(raw, q),
{
    lemma_separator_scan(raw, 0);
}

proof fn lemma_separator_scan(raw: Seq<u8>, i: int)
    requires
        0 <= i,
    ensures
        separator_from(raw, i) matches Some(p) ==> i <= p < raw.len() && separator_at(raw, p)
            && forall|q: int| i <= q < p ==> !separator_at(raw, q),
        separator_from(raw, i) is None ==> forall|q: int| i <= q < raw.len() ==> !separator_at(raw, q),
    decreases raw.len() - i,
{
    if i < raw.len() && !separator_at(raw, i) {
        lemma_separator_scan(raw, i + 1);
    }
}

proof fn lemma_lower_char_idempotent(c: char)
    ensures
        lower_char(lower_char(c)) == lower_char(c),
{
    if 'A' <= c && c <= 'Z' {
        assert((c as u32) + 32 >= 97 && (c as u32) + 32 <= 122);
    }
}

proof fn lemma_ascii_lower_idempotent(s: Seq<char>)
    ensures
        ascii_lower(ascii_lower(s)) == ascii_lower(s),
{
    assert forall|i: int| 0 <= i < s.len() implies #[trigger] ascii_lower(ascii_lower(s))[i] == ascii_lower(s)[i] by {
        lemma_lower_char_idempotent(s[i]);
    }
    assert(ascii_lower(ascii_lower(s)) =~= ascii_lower(s));
}

/// Headers as read: each name is non-empty, lowercase, trimmed and holds
/// no `:` and no line break; no value holds a line break.
pub open spec fn names_lowercase(hs: Seq<HeaderV>) -> bool {
    forall|k: int| 0 <= k < hs.len() ==> {
        &&& (#[trigger] hs[k]).0.len() > 0
        &&& ascii_lower(hs[k].0) == hs[k].0
        &&& trim(hs[k].0) == hs[k].0
        &&& !hs[k].0.contains(':')
        &&& !hs[k].0.contains('\n')
        &&& !hs[k].1.contains('\n')
    }
}

proof fn lemma_trim_keeps_out(x: Seq<char>, c: char)
    requires
        !x.contains(c),
    ensures
        !trim(x).contains(c),
{
    let a = skip_ws_from(x, 0);
    let b = skip_ws_back(x, x.len() as int);
    lemma_skip_ws_from_bounds(x, 0);
    lemma_skip_ws_back_bounds(x, x.len() as int);
    if a < b {
        let t = x.subrange(a, b);
        if t.contains(c) {
            let i = choose|i: int| 0 <= i < t.len() && t[i] == c;
            assert(x[a + i] == c);
        }
    }
}

proof fn lemma_lower_keeps_out(x: Seq<char>, c: char)
    requires
        !x.contains(c),
        !('A' <= c && c <= 'Z'),
        !('a' <= c && c <= 'z'),
    ensures
        !ascii_lower(x).contains(c),
{
    if ascii_lower(x).contains(c) {
        let i = choose|i: int| 0 <= i < ascii_lower(x).len() && ascii_lower(x)[i] == c;
        assert(ascii_lower(x)[i] == lower_char(x[i]));
        if 'A' <= x[i] && x[i] <= 'Z' {
            assert((x[i] as u32) + 32 >= 97 && (x[i] as u32) + 32 <= 122);
        }
    }
}

proof fn lemma_lower_not_space(c: char)
    ensures
        !is_white_space(c) ==> !is_white_space(lower_char(c)),
{
    if 'A' <= c && c <= 'Z' {
        assert((c as u32) + 32 >= 97 && (c as u32) + 32 <= 122);
    }
}

/// A trimmed, lowercased text stays trimmed.
proof fn lemma_lower_trimmed(x: Seq<char>)
    requires
        ascii_lower(trim(x)).len() > 0,
    ensures
        trim(ascii_lower(trim(x))) == ascii_lower(trim(x)),
{
    let a = skip_ws_from(x, 0);
    let b = skip_ws_back(x, x.len() as int);
    lemma_skip_ws_from_bounds(x, 0);
    lemma_skip_ws_back_bounds(x, x.len() as int);
    lemma_skip_ws_from_stops(x, 0);
    lemma_skip_ws_back_stops(x, x.len() as int);
    let t = trim(x);
    assert(a < b);
    assert(t == x.subrange(a, b));
    let n = ascii_lower(t);
    assert(t[0] == x[a]);
    assert(t[t.len() - 1] == x[b - 1]);
    lemma_lower_not_space(t[0]);
    lemma_lower_not_space(t[t.len() - 1]);
    assert(n[0] == lower_char(t[0]));
    assert(n[n.len() - 1] == lower_char(t[t.len() - 1]));
    assert(skip_ws_from(n, 0) == 0);
    assert(skip_ws_back(n, n.len() as int) == n.len());
    assert(n.subrange(0, n.len() as int) =~= n);
}

proof fn lemma_apply_header_line(acc: Seq<HeaderV>, line: Seq<char>)
    requires
        names_lowercase(acc),
        line.len() > 0,
        !line.contains('\n'),
    ensures
        names_lowercase(apply_header_line(acc, line)),
{
    let r = apply_header_line(acc, line);
    if line[0] == ' ' || line[0] == '\t' {
        if acc.len() > 0 {
            let last = acc.last();
            lemma_trim_keeps_out(line, '\n');
            let nv = last.1 + seq![' '] + trim(line);
            assert(acc[acc.len() - 1] == last);
            if nv.contains('\n') {
                let i = choose|i: int| 0 <= i < nv.len() && nv[i] == '\n';
                if i < last.1.len() {
                    assert(last.1[i] == '\n');
                } else if i > last.1.len() {
                    assert(trim(line)[i - last.1.len() - 1] == '\n');
                }
            }
            assert forall|k: int| 0 <= k < r.len() implies {
                &&& (#[trigger] r[k]).0.len() > 0
                &&& ascii_lower(r[k].0) == r[k].0
                &&& trim(r[k].0) == r[k].0
                &&& !r[k].0.contains(':')
                &&& !r[k].0.contains('\n')
                &&& !r[k].1.contains('\n')
            } by {
                if k < acc.len() - 1 {
                    assert(r[k] == acc[k]);
                } else {
                    assert(r[k] == (last.0, nv));
                }
            }
        }
    } else {
        crate::message::lemma_index_of_from(line, ':', 0);
        match index_of_from(line, ':', 0) {
            Some(c) => {
                let x = line.subrange(0, c);
                let name = ascii_lower(trim(x));
                let value = trim(line.subrange(c + 1, line.len() as int));
                lemma_ascii_lower_idempotent(trim(x));
                lemma_first_index(line, ':', 0);
                assert(!x.contains(':')) by {
                    if x.contains(':') {
                        let i = choose|i: int| 0 <= i < x.len() && x[i] == ':';
                        assert(line[i] == ':');
                    }
                }
                assert(!x.contains('\n')) by {
                    if x.contains('\n') {
                        let i = choose|i: int| 0 <= i < x.len() && x[i] == '\n';
                        assert(line[i] == '\n');
                    }
                }
                let y = line.subrange(c + 1, line.len() as int);
                assert(!y.contains('\n')) by {
                    if y.contains('\n') {
                        let i = choose|i: int| 0 <= i < y.len() && y[i] == '\n';
                        assert(line[c + 1 + i] == '\n');
                    }
                }
                lemma_trim_keeps_out(x, ':');
                lemma_trim_keeps_out(x, '\n');
                lemma_trim_keeps_out(y, '\n');
                lemma_lower_keeps_out(trim(x), ':');
                lemma_lower_keeps_out(trim(x), '\n');
                if name.len() > 0 {
                    lemma_lower_trimmed(x);
                    assert forall|k: int| 0 <= k < r.len() implies {
                        &&& (#[trigger] r[k]).0.len() > 0
                        &&& ascii_lower(r[k].0) == r[k].0
                        &&& trim(r[k].0) == r[k].0
                        &&& !r[k].0.contains(':')
                        &&& !r[k].0.contains('\n')
                        &&& !r[k].1.contains('\n')
                    } by {
                        if k < acc.len() {
                            assert(r[k] == acc[k]);
                        } else {
                            assert(r[k] == (name, value));
                        }
                    }
                }
            },
            None => {},
        }
    }
}

proof fn lemma_first_index(s: Seq<char>, c: char, i: int)
    requires
        0 <= i,
    ensures
        index_of_from(s, c, i) matches Some(k) ==> forall|q: int| i <= q < k ==> s[q] != c,
    decreases s.len() - i,
{
    if i < s.len() && s[i] != c {
        lemma_first_index(s, c, i + 1);
    }
}

proof fn lemma_line_no_break(text: Seq<char>, i: int)
    requires
        0 <= i <= text.len(),
    ensures
        forall|k: int| i <= k < line_end(text, i) ==> text[k] != '\n',
    decreases text.len() - i,
{
    if i < text.len() && text[i] != '\n' {
        lemma_line_no_break(text, i + 1);
    }
}

proof fn lemma_header_lines(text: Seq<char>, i: int, acc: Seq<HeaderV>)
    requires
        names_lowercase(acc),
    ensures
        names_lowercase(header_lines(text, i, acc)),
    decreases text.len() - i,
{
    if 0 <= i <= text.len() {
        let e = line_end(text, i);
        let raw = text.subrange(i, e);
        let line = strip_cr(raw);
        if line.len() > 0 {
            lemma_line_end_bounds(text, i);
            lemma_line_no_break(text, i);
            assert(!line.contains('\n')) by {
                if line.contains('\n') {
                    let q = choose|q: int| 0 <= q < line.len() && line[q] == '\n';
                    assert(line[q] == raw[q]);
                    assert(raw[q] == text[i + q]);
                }
            }
            lemma_apply_header_line(acc, line);
            if e < text.len() {
                lemma_header_lines(text, e + 1, apply_header_line(acc, line));
            }
        }
    }
}

/// Every header read from a message has a non-empty, lowercase, trimmed
/// name without `:` or line breaks, and a value without line breaks; so
/// header tests can compare names without regard to case.
pub proof fn header_names_are_lowercase(raw: Seq<u8>)
    ensures
        names_lowercase(spec_headers(raw)),
{
    lemma_header_lines(crate::message::decoded_text(crate::message::header_section(raw)), 0, Seq::empty());
}

proof fn lemma_skip_ws_from_stops(s: Seq<char>, i: int)
    requires
        0 <= i <= s.len(),
    ensures
        skip_ws_from(s, i) < s.len() ==> !is_white_space(s[skip_ws_from(s, i)]),
        forall|k: int| i <= k < skip_ws_from(s, i) ==> is_white_space(s[k]),
    decreases s.len() - i,
{
    if i < s.len() && is_white_space(s[i]) {
        lemma_skip_ws_from_stops(s, i + 1);
    }
}

proof fn lemma_skip_ws_back_stops(s: Seq<char>, j: int)
    requires
        0 <= j <= s.len(),
    ensures
        skip_ws_back(s, j) > 0 ==> !is_white_space(s[skip_ws_back(s, j) - 1]),
    decreases j,
{
    if j > 0 && is_white_space(s[j - 1]) {
        lemma_skip_ws_back_stops(s, j - 1);
    }
}

/// Trimming twice is trimming once.
pub proof fn trim_idempotent(s: Seq<char>)
    ensures
        trim(trim(s)) == trim(s),
{
    let a = skip_ws_from(s, 0);
    let b = skip_ws_back(s, s.len() as int);
    lemma_skip_ws_from_bounds(s, 0);
    lemma_skip_ws_back_bounds(s, s.len() as int);
    if a < b {
        let t = s.subrange(a, b);
        lemma_skip_ws_from_stops(s, 0);
        lemma_skip_ws_back_stops(s, s.len() as int);
        assert(t[0] == s[a]);
        assert(t[t.len() - 1] == s[b - 1]);
        assert(skip_ws_from(t, 0) == 0);
        assert(skip_ws_back(t, t.len() as int) == t.len());
        assert(t.subrange(0, t.len() as int) =~= t);
    } else {
        assert(trim(Seq::<char>::empty()) =~= Seq::<char>::empty());
    }
}

/// Pieces that are non-empty and trimmed.
pub open spec fn trimmed_pieces(out: Seq<Seq<char>>) -> bool {
    forall|k: int| 0 <= k < out.len() ==> (#[trigger] out[k]).len() > 0 && trim(out[k]) == out[k]
}

proof fn lemma_flush(out: Seq<Seq<char>>, cur: Seq<char>)
    requires
        trimmed_pieces(out),
    ensures
        trimmed_pieces(flush(out, cur)),
{
    trim_idempotent(cur);
    let r = flush(out, cur);
    assert forall|k: int| 0 <= k < r.len() implies (#[trigger] r[k]).len() > 0 && trim(r[k]) == r[k] by {
        if k < out.len() {
            assert(r[k] == out[k]);
        }
    }
}

proof fn lemma_split_prefix(s: Seq<char>, n: int)
    ensures
        trimmed_pieces(split_prefix(s, n).out),
    decreases n,
{
    if n > 0 {
        lemma_split_prefix(s, n - 1);
        let st = split_prefix(s, n - 1);
        lemma_flush(st.out, st.cur);
    }
}

/// The addresses split from a header value are non-empty and trimmed.
pub proof fn addresses_are_trimmed(s: Seq<char>)
    ensures
        trimmed_pieces(split_addresses_of(s)),
{
    lemma_split_prefix(s, s.len() as int);
    let st = split_prefix(s, s.len() as int);
    lemma_flush(st.out, st.cur);
}

/// Splitting at every comma, after the first `n` characters: the pieces
/// already ended (trimmed, empty ones dropped) and the piece being read.
pub open spec fn comma_split(s: Seq<char>, n: int) -> (Seq<Seq<char>>, Seq<char>)
    decreases n,
{
    if n <= 0 {
        (Seq::empty(), Seq::empty())
    } else {
        let p = comma_split(s, n - 1);
        if s[n - 1] == ',' {
            (flush(p.0, p.1), Seq::empty())
        } else {
            (p.0, p.1.push(s[n - 1]))
        }
    }
}

/// The trimmed, non-empty pieces of `s` between commas.
pub open spec fn comma_pieces(s: Seq<char>) -> Seq<Seq<char>> {
    let p = comma_split(s, s.len() as int);
    flush(p.0, p.1)
}

proof fn lemma_plain_split(s: Seq<char>, n: int)
    requires
        0 <= n <= s.len(),
        !s.contains('"'),
        !s.contains('('),
    ensures
        split_prefix(s, n) == (crate::message::SplitState {
            cur: comma_split(s, n).1,
            depth: 0,
            in_quotes: false,
            escaped: false,
            out: comma_split(s, n).0,
        }),
    decreases n,
{
    if n > 0 {
        lemma_plain_split(s, n - 1);
        assert(s[n - 1] != '"');
        assert(s[n - 1] != '(');
    }
}

/// Text without quotes or comments splits at every comma: the addresses
/// are exactly the trimmed, non-empty pieces between commas.
pub proof fn plain_addresses_split_at_commas(s: Seq<char>)
    requires
        !s.contains('"'),
        !s.contains('('),
    ensures
        split_addresses_of(s) == comma_pieces(s),
{
    lemma_plain_split(s, s.len() as int);
}

// ---------------------------------------------------------------------------
// Compiling
// ---------------------------------------------------------------------------

proof fn lemma_first_unknown_none(names: Seq<Seq<char>>)
    requires
        first_unknown(names) is None,
    ensures
        forall|i: int| 0 <= i < names.len() ==> is_known_extension(#[trigger] names[i]),
    decreases names.len(),
{
    if names.len() > 0 {
        let t = names.subrange(1, names.len() as int);
        lemma_first_unknown_none(t);
        assert forall|i: int| 0 <= i < names.len() implies is_known_extension(#[trigger] names[i]) by {
            if i > 0 {
                assert(names[i] == t[i - 1]);
            }
        }
    }
}

/// A script compiles only if every extension it `require`s is one that
/// the evaluator implements.
pub proof fn compiled_requires_are_known(src: Seq<char>)
    ensures
        compile_source_outcome(src) matches Ok(sv) ==> forall|i: int|
            0 <= i < required_names(sv).len() ==> is_known_extension(#[trigger] required_names(sv)[i]),
{
    if let Ok(sv) = compile_source_outcome(src) {
        lemma_first_unknown_none(required_names(sv));
    }
}

proof fn lemma_list_clean(stmts: Seq<Seq<FormV>>, d: Set<Seq<char>>, i: int)
    requires
        list_extension_error(stmts, d) is None,
        0 <= i < stmts.len(),
    ensures
        extension_error(stmts[i], d) is None,
    decreases i,
{
    if i > 0 {
        let t = stmts.subrange(1, stmts.len() as int);
        lemma_list_clean(t, d, i - 1);
        assert(t[i - 1] == stmts[i]);
    }
}

proof fn lemma_forms_clean(forms: Seq<FormV>, d: Set<Seq<char>>, j: int)
    requires
        forms_extension_error(forms, d) is None,
        0 <= j < forms.len(),
    ensures
        forms[j] matches FormV::Tag(t) ==> !(t == "regex"@ && !d.contains("regex"@)),
    decreases j,
{
    if j > 0 {
        let t = forms.subrange(1, forms.len() as int);
        lemma_forms_clean(t, d, j - 1);
        assert(t[j - 1] == forms[j]);
    }
}

/// RFC 5228 §6.1: in a script that compiled, every top-level command that
/// belongs to an extension (`fileinto`, `reject`, `set`) and every
/// `:regex` match type of a top-level statement has its extension
/// `require`d.
pub proof fn compiled_extensions_are_declared(src: Seq<char>, i: int, j: int)
    ensures
        compile_source_outcome(src) matches Ok(sv) ==> (0 <= i < sv.len() && sv[i].len() > 0 ==> (
            sv[i][0] matches FormV::Word(w) ==> (command_extension(w) matches Some(e) ==> required_names(sv).contains(e)))),
        compile_source_outcome(src) matches Ok(sv) ==> (0 <= i < sv.len() && 0 <= j < sv[i].len()
            && sv[i][j] == FormV::Tag("regex"@) ==> required_names(sv).contains("regex"@)),
{
    if let Ok(sv) = compile_source_outcome(src) {
        let d = required_names(sv).to_set();
        if 0 <= i < sv.len() {
            lemma_list_clean(sv, d, i);
            let st = sv[i];
            assert(forms_extension_error(st, d) is None);
            if 0 <= j < st.len() {
                lemma_forms_clean(st, d, j);
            }
        }
    }
}

/// Every known extension declared in `d` is declared in `d2`.
pub open spec fn covers(d: Set<Seq<char>>, d2: Set<Seq<char>>) -> bool {
    forall|k: Seq<char>| #![trigger d.contains(k)] is_known_extension(k) && d.contains(k) ==> d2.contains(k)
}

proof fn lemma_known_names()
    ensures
        is_known_extension("envelope"@),
        is_known_extension("regex"@),
        is_known_extension("fileinto"@),
        is_known_extension("reject"@),
        is_known_extension("variables"@),
{
}

proof fn lemma_envelope_mono(forms: Seq<FormV>, d: Set<Seq<char>>, d2: Set<Seq<char>>)
    requires
        covers(d, d2),
    ensures
        undeclared_envelope_word(forms, d) is None ==> undeclared_envelope_word(forms, d2) is None,
    decreases forms.len(),
{
    lemma_known_names();
    if forms.len() > 0 {
        if forms[0] is Block {
            if forms.len() > 1 {
                lemma_envelope_mono(forms.subrange(2, forms.len() as int), d, d2);
            }
        } else {
            lemma_envelope_mono(forms.subrange(1, forms.len() as int), d, d2);
        }
    }
}

proof fn lemma_extension_mono(stmt: Seq<FormV>, d: Set<Seq<char>>, d2: Set<Seq<char>>)
    requires
        covers(d, d2),
    ensures
        extension_error(stmt, d) is None ==> extension_error(stmt, d2) is None,
    decreases stmt, 1nat,
{
    lemma_known_names();
    if stmt.len() > 0 {
        lemma_envelope_mono(stmt.subrange(1, stmt.len() as int), d, d2);
    }
    lemma_forms_mono(stmt, d, d2);
}

proof fn lemma_forms_mono(forms: Seq<FormV>, d: Set<Seq<char>>, d2: Set<Seq<char>>)
    requires
        covers(d, d2),
    ensures
        forms_extension_error(forms, d) is None ==> forms_extension_error(forms, d2) is None,
    decreases forms, 0nat,
{
    lemma_known_names();
    if forms.len() > 0 {
        assert(decreases_to!(forms => forms[0]));
        match forms[0] {
            FormV::Block(b) => lemma_list_mono(b, d, d2),
            FormV::TestList(ts) => lemma_list_mono(ts, d, d2),
            _ => {},
        }
        lemma_forms_mono(forms.subrange(1, forms.len() as int), d, d2);
    }
}

proof fn lemma_list_mono(stmts: Seq<Seq<FormV>>, d: Set<Seq<char>>, d2: Set<Seq<char>>)
    requires
        covers(d, d2),
    ensures
        list_extension_error(stmts, d) is None ==> list_extension_error(stmts, d2) is None,
    decreases stmts, 0nat,
{
    if stmts.len() > 0 {
        assert(decreases_to!(stmts => stmts[0]));
        lemma_extension_mono(stmts[0], d, d2);
        lemma_list_mono(stmts.subrange(1, stmts.len() as int), d, d2);
    }
}

/// RFC 5228 §6.1: declaring more extensions never turns an accepted
/// statement into an error.
pub proof fn declaring_more_keeps_statements_accepted(stmt: Seq<FormV>, d: Set<Seq<char>>, d2: Set<Seq<char>>)
    requires
        d.subset_of(d2),
    ensures
        extension_error(stmt, d) is None ==> extension_error(stmt, d2) is None,
{
    lemma_extension_mono(stmt, d, d2);
}

/// With every known extension declared, no statement uses an undeclared
/// extension.
pub proof fn all_extensions_declared_accepts(stmt: Seq<FormV>, d: Set<Seq<char>>)
    requires
        forall|k: Seq<char>| is_known_extension(k) ==> d.contains(k),
    ensures
        extension_error(stmt, d) is None,
{
    let full = Set::<Seq<char>>::full();
    lemma_all_declared(stmt, full);
    lemma_extension_mono(stmt, full, d);
}

proof fn lemma_all_declared(stmt: Seq<FormV>, d: Set<Seq<char>>)
    requires
        d == Set::<Seq<char>>::full(),
    ensures
        extension_error(stmt, d) is None,
    decreases stmt, 1nat,
{
    if stmt.len() > 0 {
        lemma_envelope_all(stmt.subrange(1, stmt.len() as int), d);
    }
    lemma_forms_all(stmt, d);
}

proof fn lemma_envelope_all(forms: Seq<FormV>, d: Set<Seq<char>>)
    requires
        d == Set::<Seq<char>>::full(),
    ensures
        undeclared_envelope_word(forms, d) is None,
    decreases forms.len(),
{
    if forms.len() > 0 {
        if forms[0] is Block {
            if forms.len() > 1 {
                lemma_envelope_all(forms.subrange(2, forms.len() as int), d);
            }
        } else {
            lemma_envelope_all(forms.subrange(1, forms.len() as int), d);
        }
    }
}

proof fn lemma_forms_all(forms: Seq<FormV>, d: Set<Seq<char>>)
    requires
        d == Set::<Seq<char>>::full(),
    ensures
        forms_extension_error(forms, d) is None,
    decreases forms, 0nat,
{
    if forms.len() > 0 {
        assert(decreases_to!(forms => forms[0]));
        match forms[0] {
            FormV::Block(b) => lemma_list_all(b, d),
            FormV::TestList(ts) => lemma_list_all(ts, d),
            _ => {},
        }
        lemma_forms_all(forms.subrange(1, forms.len() as int), d);
    }
}

proof fn lemma_list_all(stmts: Seq<Seq<FormV>>, d: Set<Seq<char>>)
    requires
        d == Set::<Seq<char>>::full(),
    ensures
        list_extension_error(stmts, d) is None,
    decreases stmts, 0nat,
{
    if stmts.len() > 0 {
        assert(decreases_to!(stmts => stmts[0]));
        lemma_all_declared(stmts[0], d);
        lemma_list_all(stmts.subrange(1, stmts.len() as int), d);
    }
}

/// A compile error is of kind `Lex` exactly when it carries the lexer's
/// position: lexer errors always have line and column, errors of the form
/// reader have neither, and the checks after reading carry no parse error.
pub proof fn compile_error_positions(src: Seq<char>)
    ensures
        compile_source_outcome(src) matches Err((ev, pe)) ==> (
            (ev.1 is Lex <==> (pe matches Some(p) && p.1 is Some))
            && (pe matches Some(p) ==> (p.1 is Some <==> p.2 is Some))
        ),
{
    if let Ok(tokens) = spec_tokenize(src) {
        if let Ok(sv) = crate::form::spec_read_script(tokens) {
            lemma_check_kind(sv);
        }
    }
}

/// The kinds of the errors found in a parsed script.
pub open spec fn check_kind(k: KindV) -> bool {
    k is UnsupportedExtension || k is MissingRequire || k is UnsupportedComparator || k is Parse
        || k is InvalidRegex
}

proof fn lemma_check_kind(sv: Seq<Seq<FormV>>)
    ensures
        script_check_error(sv) matches Some(e) ==> check_kind(e.1),
{
    lemma_list_kind(sv, required_names(sv).to_set());
    lemma_clauses_kind(list_clauses(sv));
}

proof fn lemma_envelope_kind(forms: Seq<FormV>, d: Set<Seq<char>>)
    ensures
        undeclared_envelope_word(forms, d) matches Some(e) ==> e.1 is MissingRequire,
    decreases forms.len(),
{
    if forms.len() > 0 {
        if forms[0] is Block {
            if forms.len() > 1 {
                lemma_envelope_kind(forms.subrange(2, forms.len() as int), d);
            }
        } else {
            lemma_envelope_kind(forms.subrange(1, forms.len() as int), d);
        }
    }
}

proof fn lemma_extension_kind(stmt: Seq<FormV>, d: Set<Seq<char>>)
    ensures
        extension_error(stmt, d) matches Some(e) ==> e.1 is MissingRequire,
    decreases stmt, 1nat,
{
    if stmt.len() > 0 {
        lemma_envelope_kind(stmt.subrange(1, stmt.len() as int), d);
    }
    lemma_forms_kind(stmt, d);
}

proof fn lemma_forms_kind(forms: Seq<FormV>, d: Set<Seq<char>>)
    ensures
        forms_extension_error(forms, d) matches Some(e) ==> e.1 is MissingRequire,
    decreases forms, 0nat,
{
    if forms.len() > 0 {
        assert(decreases_to!(forms => forms[0]));
        match forms[0] {
            FormV::Block(b) => lemma_list_kind(b, d),
            FormV::TestList(ts) => lemma_list_kind(ts, d),
            _ => {},
        }
        lemma_forms_kind(forms.subrange(1, forms.len() as int), d);
    }
}

proof fn lemma_list_kind(stmts: Seq<Seq<FormV>>, d: Set<Seq<char>>)
    ensures
        list_extension_error(stmts, d) matches Some(e) ==> e.1 is MissingRequire,
    decreases stmts, 0nat,
{
    if stmts.len() > 0 {
        assert(decreases_to!(stmts => stmts[0]));
        lemma_extension_kind(stmts[0], d);
        lemma_list_kind(stmts.subrange(1, stmts.len() as int), d);
    }
}

proof fn lemma_scan_kind(c: Seq<FormV>, i: int, has_regex: bool)
    ensures
        comparator_scan(c, i, has_regex) matches Err(e) ==> (e.1 is UnsupportedComparator || e.1 is Parse),
        comparator_scan(c, i, has_regex) matches Err(e) ==> (e.1 matches KindV::UnsupportedComparator(n)
            ==> n != "i;ascii-casemap"@ && n != "i;octet"@),
    decreases c.len() - i,
{
    if 0 <= i < c.len() {
        lemma_scan_kind(c, i + 1, has_regex);
        lemma_scan_kind(c, i + 1, true);
        if i + 2 <= c.len() {
            lemma_scan_kind(c, i + 2, has_regex);
        }
    }
}

proof fn lemma_patterns_kind(ps: Seq<Seq<char>>)
    ensures
        patterns_error(ps) matches Some(e) ==> e.1 is InvalidRegex,
    decreases ps.len(),
{
    if ps.len() > 0 {
        lemma_patterns_kind(ps.subrange(1, ps.len() as int));
    }
}

proof fn lemma_clauses_kind(cs: Seq<Seq<FormV>>)
    ensures
        clauses_error(cs) matches Some(e) ==> check_kind(e.1) && (e.1 is UnsupportedComparator
            || e.1 is Parse || e.1 is InvalidRegex),
        clauses_error(cs) matches Some(e) ==> (e.1 matches KindV::UnsupportedComparator(n)
            ==> n != "i;ascii-casemap"@ && n != "i;octet"@),
    decreases cs.len(),
{
    if cs.len() > 0 {
        lemma_scan_kind(cs[0], 0, false);
        lemma_patterns_kind(clause_patterns(cs[0]));
        lemma_clauses_kind(cs.subrange(1, cs.len() as int));
    }
}

proof fn lemma_first_unknown_some(names: Seq<Seq<char>>)
    ensures
        first_unknown(names) matches Some(s) ==> exists|j: int|
            0 <= j < names.len() && names[j] == s && !is_known_extension(s) && forall|q: int|
                0 <= q < j ==> is_known_extension(#[trigger] names[q]),
    decreases names.len(),
{
    if names.len() > 0 && is_known_extension(names[0]) {
        let t = names.subrange(1, names.len() as int);
        lemma_first_unknown_some(t);
        if let Some(s) = first_unknown(names) {
            let j = choose|j: int|
                0 <= j < t.len() && t[j] == s && !is_known_extension(s) && forall|q: int|
                    0 <= q < j ==> is_known_extension(#[trigger] t[q]);
            assert(names[j + 1] == s);
            assert forall|q: int| 0 <= q < j + 1 implies is_known_extension(#[trigger] names[q]) by {
                if q > 0 {
                    assert(names[q] == t[q - 1]);
                }
            }
        }
    }
}

/// RFC 5228 §2.6: a script that tokenizes and reads fails to compile with
/// `UnsupportedExtension` exactly when one of its top-level `require`s
/// names an extension that is not known; the error then names the first
/// such extension, in order.
pub proof fn unknown_extension_rejected_exactly(src: Seq<char>)
    ensures
        spec_tokenize(src) matches Ok(tokens) ==> (spec_read_script(tokens) matches Ok(sv) ==> {
            &&& ((compile_source_outcome(src) matches Err((ev, _)) && ev.1 is UnsupportedExtension)
                <==> exists|i: int| 0 <= i < required_names(sv).len() && !is_known_extension(#[trigger] required_names(sv)[i]))
            &&& (first_unknown(required_names(sv)) matches Some(s) ==> {
                &&& compile_source_outcome(src) == Err::<Seq<Seq<FormV>>, crate::CompileErrV>(
                    (crate::validate::unsupported_extension_error(s), None))
                &&& exists|j: int| 0 <= j < required_names(sv).len() && required_names(sv)[j] == s
                    && !is_known_extension(s) && forall|q: int| 0 <= q < j ==> is_known_extension(#[trigger] required_names(sv)[q])
            })
        }),
{
    if let Ok(tokens) = spec_tokenize(src) {
        if let Ok(sv) = spec_read_script(tokens) {
            let names = required_names(sv);
            lemma_first_unknown_some(names);
            lemma_list_kind(sv, names.to_set());
            lemma_clauses_kind(list_clauses(sv));
            if first_unknown(names) is None {
                lemma_first_unknown_none(names);
            }
        }
    }
}

/// `compile` reports a UTF-8 error exactly for bytes that are not valid
/// UTF-8.
pub proof fn utf8_errors_exactly_for_invalid_bytes(bytes: Seq<u8>)
    ensures
        (compile_outcome(bytes) matches Err((ev, _)) && ev.1 is Utf8) <==> !vstd::utf8::valid_utf8(bytes),
{
    if vstd::utf8::valid_utf8(bytes) {
        let src = vstd::utf8::decode_utf8(bytes);
        if let Ok(tokens) = spec_tokenize(src) {
            if let Ok(sv) = crate::form::spec_read_script(tokens) {
                lemma_check_kind(sv);
            }
        }
    }
}

/// Header presence does not depend on the ASCII case of the name asked for.
pub proof fn header_presence_ignores_case(env: EnvV, a: Seq<char>, b: Seq<char>)
    requires
        ascii_lower(a) == ascii_lower(b),
    ensures
        has_header(env, a) == has_header(env, b),
{
    assert(a.len() == ascii_lower(a).len());
    assert forall|h: Seq<char>| eq_ignore_case(h, a) == eq_ignore_case(h, b) by {
        assert forall|i: int| 0 <= i < a.len() implies lower_char(a[i]) == lower_char(b[i]) by {
            assert(b.len() == ascii_lower(b).len());
            assert(ascii_lower(a)[i] == lower_char(a[i]));
            assert(ascii_lower(b)[i] == lower_char(b[i]));
        }
    }
    if has_header(env, a) {
        let k = choose|k: int| 0 <= k < env.headers.len() && eq_ignore_case(#[trigger] env.headers[k].0, a);
        assert(eq_ignore_case(env.headers[k].0, b));
    }
    if has_header(env, b) {
        let k = choose|k: int| 0 <= k < env.headers.len() && eq_ignore_case(#[trigger] env.headers[k].0, b);
        assert(eq_ignore_case(env.headers[k].0, a));
    }
}

// ---------------------------------------------------------------------------
// Reading scripts
// ---------------------------------------------------------------------------

/// How deep blocks and test lists nest in a form.
pub open spec fn form_depth(f: FormV) -> nat
    decreases f,
{
    match f {
        FormV::Block(b) => 1 + list_depth(b),
        FormV::TestList(ts) => 1 + list_depth(ts),
        _ => 0,
    }
}

/// The deepest nesting among the forms of a statement.
pub open spec fn stmt_depth(st: Seq<FormV>) -> nat
    decreases st,
{
    if st.len() == 0 {
        0
    } else {
        let a = stmt_depth(st.drop_last());
        let b = form_depth(st.last());
        if a >= b {
            a
        } else {
            b
        }
    }
}

/// The deepest nesting among statements.
pub open spec fn list_depth(s: Seq<Seq<FormV>>) -> nat
    decreases s,
{
    if s.len() == 0 {
        0
    } else {
        let a = list_depth(s.drop_last());
        let b = stmt_depth(s.last());
        if a >= b {
            a
        } else {
            b
        }
    }
}

proof fn lemma_stmt_depth_push(st: Seq<FormV>, f: FormV)
    ensures
        stmt_depth(st.push(f)) == if stmt_depth(st) >= form_depth(f) {
            stmt_depth(st)
        } else {
            form_depth(f)
        },
{
    assert(st.push(f).drop_last() =~= st);
}

proof fn lemma_list_depth_push(s: Seq<Seq<FormV>>, st: Seq<FormV>)
    ensures
        list_depth(s.push(st)) == if list_depth(s) >= stmt_depth(st) {
            list_depth(s)
        } else {
            stmt_depth(st)
        },
{
    assert(s.push(st).drop_last() =~= s);
}

proof fn lemma_stmts_from_depth(t: Seq<TokenV>, pos: int, depth: nat, in_block: bool, acc: Seq<Seq<FormV>>)
    requires
        list_depth(acc) + depth <= MAX_DEPTH,
    ensures
        stmts_from(t, pos, depth, in_block, acc) matches Ok((r, _)) ==> list_depth(r) + depth <= MAX_DEPTH,
    decreases remaining(t, pos), 4nat,
{
    if 0 <= pos < t.len() && t[pos] != TokenV::RBrace {
        lemma_stmt_from_depth(t, pos, depth, Seq::empty());
        if let Ok((st, p)) = stmt_from(t, pos, depth, Seq::empty()) {
            if pos < p {
                lemma_list_depth_push(acc, st);
                lemma_stmts_from_depth(t, p, depth, in_block, acc.push(st));
            }
        }
    }
}

proof fn lemma_stmt_from_depth(t: Seq<TokenV>, pos: int, depth: nat, forms: Seq<FormV>)
    requires
        stmt_depth(forms) + depth <= MAX_DEPTH,
    ensures
        stmt_from(t, pos, depth, forms) matches Ok((st, _)) ==> stmt_depth(st) + depth <= MAX_DEPTH,
    decreases remaining(t, pos), 3nat,
{
    if 0 <= pos < t.len() {
        match t[pos] {
            TokenV::LBrace => {
                lemma_block_at_depth(t, pos + 1, depth);
                if let Ok((b, p)) = block_at(t, pos + 1, depth) {
                    if pos < p {
                        let forms2 = forms.push(FormV::Block(b));
                        lemma_stmt_depth_push(forms, FormV::Block(b));
                        if p < t.len() && continues_chain(t[p]) {
                            lemma_stmt_from_depth(t, p, depth, forms2);
                        }
                    }
                }
            },
            TokenV::LParen => {
                lemma_test_list_at_depth(t, pos + 1, depth);
                if let Ok((ts, p)) = test_list_at(t, pos + 1, depth) {
                    if pos < p {
                        lemma_stmt_depth_push(forms, FormV::TestList(ts));
                        lemma_stmt_from_depth(t, p, depth, forms.push(FormV::TestList(ts)));
                    }
                }
            },
            TokenV::LBracket => {
                if let Ok((v, p)) = string_list_at(t, pos + 1) {
                    if pos < p {
                        lemma_stmt_depth_push(forms, FormV::StringList(v));
                        lemma_stmt_from_depth(t, p, depth, forms.push(FormV::StringList(v)));
                    }
                }
            },
            TokenV::Semicolon => {},
            TokenV::RBrace => {},
            TokenV::RParen => {},
            TokenV::RBracket => {},
            TokenV::Comma => {},
            _ => {
                let f = atom_form(t[pos])->0;
                lemma_stmt_depth_push(forms, f);
                lemma_stmt_from_depth(t, pos + 1, depth, forms.push(f));
            },
        }
    }
}

proof fn lemma_block_at_depth(t: Seq<TokenV>, start: int, depth: nat)
    ensures
        block_at(t, start, depth) matches Ok((b, _)) ==> list_depth(b) + depth + 1 <= MAX_DEPTH,
    decreases remaining(t, start) + 1, 1nat,
{
    if depth < MAX_DEPTH {
        lemma_stmts_from_depth(t, start, depth + 1, true, Seq::empty());
    }
}

proof fn lemma_test_list_at_depth(t: Seq<TokenV>, start: int, depth: nat)
    ensures
        test_list_at(t, start, depth) matches Ok((ts, _)) ==> list_depth(ts) + depth + 1 <= MAX_DEPTH,
    decreases remaining(t, start) + 1, 1nat,
{
    if depth < MAX_DEPTH {
        lemma_tests_from_depth(t, start, depth + 1, Seq::empty());
    }
}

proof fn lemma_tests_from_depth(t: Seq<TokenV>, pos: int, depth: nat, acc: Seq<Seq<FormV>>)
    requires
        list_depth(acc) + depth <= MAX_DEPTH,
    ensures
        tests_from(t, pos, depth, acc) matches Ok((r, _)) ==> list_depth(r) + depth <= MAX_DEPTH,
    decreases remaining(t, pos), 3nat,
{
    if 0 <= pos < t.len() {
        lemma_test_from_depth(t, pos, depth, Seq::empty());
        if let Ok((f, p, more)) = test_from(t, pos, depth, Seq::empty()) {
            if pos < p {
                lemma_list_depth_push(acc, f);
                if more {
                    lemma_tests_from_depth(t, p, depth, acc.push(f));
                }
            }
        }
    }
}

proof fn lemma_test_from_depth(t: Seq<TokenV>, pos: int, depth: nat, forms: Seq<FormV>)
    requires
        stmt_depth(forms) + depth <= MAX_DEPTH,
    ensures
        test_from(t, pos, depth, forms) matches Ok((f, _, _)) ==> stmt_depth(f) + depth <= MAX_DEPTH,
    decreases remaining(t, pos), 2nat,
{
    if 0 <= pos < t.len() {
        match t[pos] {
            TokenV::LParen => {
                lemma_test_list_at_depth(t, pos + 1, depth);
                if let Ok((ts, p)) = test_list_at(t, pos + 1, depth) {
                    if pos < p {
                        lemma_stmt_depth_push(forms, FormV::TestList(ts));
                        lemma_test_from_depth(t, p, depth, forms.push(FormV::TestList(ts)));
                    }
                }
            },
            TokenV::LBracket => {
                if let Ok((v, p)) = string_list_at(t, pos + 1) {
                    if pos < p {
                        lemma_stmt_depth_push(forms, FormV::StringList(v));
                        lemma_test_from_depth(t, p, depth, forms.push(FormV::StringList(v)));
                    }
                }
            },
            TokenV::Comma => {},
            TokenV::RParen => {},
            TokenV::LBrace => {},
            TokenV::RBrace => {},
            TokenV::Semicolon => {},
            TokenV::RBracket => {},
            _ => {
                let f = atom_form(t[pos])->0;
                lemma_stmt_depth_push(forms, f);
                lemma_test_from_depth(t, pos + 1, depth, forms.push(f));
            },
        }
    }
}

/// Blocks and test lists in a script that was read nest at most
/// [`MAX_DEPTH`] deep.
pub proof fn read_scripts_nest_at_most_max_depth(t: Seq<TokenV>)
    ensures
        spec_read_script(t) matches Ok(sv) ==> list_depth(sv) <= MAX_DEPTH,
{
    lemma_stmts_from_depth(t, 0, 0, false, Seq::empty());
}

// ---------------------------------------------------------------------------
// if / else
// ---------------------------------------------------------------------------

proof fn lemma_chain_words()
    ensures
        "if"@ != "require"@,
        "else"@ != "elsif"@,
{
    reveal_strlit("if");
    reveal_strlit("require");
    reveal_strlit("else");
    reveal_strlit("elsif");
    assert("if"@.len() == 2 && "require"@.len() == 7);
    assert("else"@.len() == 4 && "elsif"@.len() == 5);
}

proof fn lemma_first_block_after(t: Seq<FormV>, rest: Seq<FormV>, i: int)
    requires
        0 <= i <= t.len(),
        rest.len() > 0,
        rest[0] is Block,
        forall|k: int| 0 <= k < t.len() ==> !(#[trigger] t[k] is Block),
    ensures
        crate::evaluator::first_block(t + rest, i) == Some(t.len() as int),
    decreases t.len() - i,
{
    let f = t + rest;
    if i < t.len() {
        assert(f[i] == t[i]);
        lemma_first_block_after(t, rest, i + 1);
    } else {
        assert(f[i] == rest[0]);
    }
}

/// RFC 5228 §3.1: `if T {B1} else {B2}` runs `B1` when the test `T`
/// holds and `B2` when it does not; either way the outcome is that of
/// the block run (a block that runs to its end continues the script).
pub proof fn if_else_takes_one_branch(
    t: Seq<FormV>,
    b1: Seq<Seq<FormV>>,
    b2: Seq<Seq<FormV>>,
    env: EnvV,
    vars: Vars,
)
    requires
        forall|k: int| 0 <= k < t.len() ==> !(#[trigger] t[k] is Block),
    ensures
        ({
            let stmt = seq![FormV::Word("if"@)] + t + seq![FormV::Block(b1), FormV::Word("else"@), FormV::Block(b2)];
            let taken = if test_holds(t, env, vars) { b1 } else { b2 };
            stmt_outcome(stmt, env, vars) == crate::evaluator::branch_outcome(stmts_outcome(taken, env, vars))
        }),
{
    lemma_chain_words();
    let tail = seq![FormV::Block(b1), FormV::Word("else"@), FormV::Block(b2)];
    let stmt = seq![FormV::Word("if"@)] + t + tail;
    let rest = stmt.subrange(1, stmt.len() as int);
    assert(rest =~= t + tail);
    assert(stmt[0] == FormV::Word("if"@));
    lemma_first_block_after(t, tail, 0);
    let p = t.len() as int;
    assert(rest[p] == FormV::Block(b1));
    assert(rest.subrange(0, p) =~= t);
    let after = rest.subrange(p + 1, rest.len() as int);
    assert(after =~= seq![FormV::Word("else"@), FormV::Block(b2)]);
    assert(rest[p + 2] == FormV::Block(b2));
    assert(stmt_outcome(stmt, env, vars) == crate::evaluator::if_outcome(rest, env, vars));
}

// ---------------------------------------------------------------------------
// Key lists
// ---------------------------------------------------------------------------

/// RFC 5228 §2.7.1: a list of keys matches a value when any one of its
/// keys does, wherever it stands in the list.
pub proof fn key_list_matches_when_any_key_does(value: Seq<char>, keys: Seq<Seq<char>>, mt: crate::evaluator::MatchType, c: Comparator)
    ensures
        crate::evaluator::any_key_matches(value, keys, mt, c) == exists|i: int|
            0 <= i < keys.len() && #[trigger] crate::evaluator::any_key_matches(value, seq![keys[i]], mt, c),
{
    if crate::evaluator::any_key_matches(value, keys, mt, c) {
        let i = choose|i: int| 0 <= i < keys.len() && crate::evaluator::match_holds(value, #[trigger] keys[i], mt, c);
        assert(seq![keys[i]][0] == keys[i]);
        assert(crate::evaluator::any_key_matches(value, seq![keys[i]], mt, c));
    }
    if exists|i: int| 0 <= i < keys.len() && #[trigger] crate::evaluator::any_key_matches(value, seq![keys[i]], mt, c) {
        let i = choose|i: int| 0 <= i < keys.len() && #[trigger] crate::evaluator::any_key_matches(value, seq![keys[i]], mt, c);
        let j = choose|j: int| 0 <= j < 1 && crate::evaluator::match_holds(value, #[trigger] seq![keys[i]][j], mt, c);
        assert(j == 0);
        assert(seq![keys[i]][0] == keys[i]);
    }
}

/// A key list splits: it matches exactly when its first part or its
/// second part does.
pub proof fn key_list_matches_by_parts(value: Seq<char>, k1: Seq<Seq<char>>, k2: Seq<Seq<char>>, mt: crate::evaluator::MatchType, c: Comparator)
    ensures
        crate::evaluator::any_key_matches(value, k1 + k2, mt, c) == (crate::evaluator::any_key_matches(value, k1, mt, c)
            || crate::evaluator::any_key_matches(value, k2, mt, c)),
{
    let k = k1 + k2;
    if crate::evaluator::any_key_matches(value, k, mt, c) {
        let i = choose|i: int| 0 <= i < k.len() && crate::evaluator::match_holds(value, #[trigger] k[i], mt, c);
        if i < k1.len() {
            assert(k[i] == k1[i]);
        } else {
            assert(k[i] == k2[i - k1.len()]);
        }
    }
    if crate::evaluator::any_key_matches(value, k1, mt, c) {
        let i = choose|i: int| 0 <= i < k1.len() && crate::evaluator::match_holds(value, #[trigger] k1[i], mt, c);
        assert(k[i] == k1[i]);
    }
    if crate::evaluator::any_key_matches(value, k2, mt, c) {
        let i = choose|i: int| 0 <= i < k2.len() && crate::evaluator::match_holds(value, #[trigger] k2[i], mt, c);
        assert(k[i + k1.len()] == k2[i]);
    }
}

/// `header "name" "key"`, with one key.
pub open spec fn header_with_key(name: Seq<char>, key: Seq<char>, env: EnvV, vars: Vars) -> bool {
    test_holds(seq![FormV::Word("header"@), FormV::Str(name), FormV::Str(key)], env, vars)
}

proof fn lemma_header_args(name: Seq<char>, second: FormV, keys: Seq<Seq<char>>)
    requires
        second == FormV::StringList(keys) || (keys.len() == 1 && second == FormV::Str(keys[0])),
    ensures
        crate::evaluator::test_args(seq![FormV::Str(name), second]).names =~= seq![name],
        crate::evaluator::test_args(seq![FormV::Str(name), second]).keys =~= keys,
        crate::evaluator::test_args(seq![FormV::Str(name), second]).mt == crate::evaluator::MatchType::Is,
        crate::evaluator::test_args(seq![FormV::Str(name), second]).comparator == Comparator::AsciiCasemap,
{
    let f = seq![FormV::Str(name), second];
    reveal_with_fuel(crate::evaluator::args_from, 3);
    let a0 = crate::evaluator::initial_args();
    let a1 = crate::evaluator::add_operand(a0, seq![name]);
    assert(a1.names =~= seq![name]);
    if second == FormV::StringList(keys) {
        let a2 = crate::evaluator::add_operand(a1, keys);
        assert(a2.keys =~= keys);
        assert(crate::evaluator::args_from(f, 2, a2) == a2);
    } else {
        let a2 = crate::evaluator::add_operand(a1, seq![keys[0]]);
        assert(a2.keys =~= keys);
        assert(crate::evaluator::args_from(f, 2, a2) == a2);
    }
}

/// RFC 5228 §5.7: `header "name" [k1, ..., kn]` holds exactly when
/// `header "name" ki` holds for some key `ki` of the list.
pub proof fn header_test_holds_when_any_key_does(name: Seq<char>, keys: Seq<Seq<char>>, env: EnvV, vars: Vars)
    ensures
        test_holds(seq![FormV::Word("header"@), FormV::Str(name), FormV::StringList(keys)], env, vars) == exists|i: int|
            0 <= i < keys.len() && #[trigger] header_with_key(name, keys[i], env, vars),
{
    let list = seq![FormV::Word("header"@), FormV::Str(name), FormV::StringList(keys)];
    assert(list[0] == FormV::Word("header"@));
    assert(list.subrange(1, 3) =~= seq![FormV::Str(name), FormV::StringList(keys)]);
    lemma_header_args(name, FormV::StringList(keys), keys);
    let ek = crate::evaluator::expand_all(keys, env, vars);
    let en = crate::evaluator::expand_all(seq![name], env, vars);
    assert forall|i: int| 0 <= i < keys.len() implies #[trigger] header_with_key(name, keys[i], env, vars)
        == (exists|h: int| 0 <= h < env.headers.len() && eq_ignore_case(#[trigger] env.headers[h].0, en[0])
            && crate::evaluator::match_holds(env.headers[h].1, ek[i], crate::evaluator::MatchType::Is, Comparator::AsciiCasemap)) by {
        let one = seq![FormV::Word("header"@), FormV::Str(name), FormV::Str(keys[i])];
        assert(one[0] == FormV::Word("header"@));
        assert(one.subrange(1, 3) =~= seq![FormV::Str(name), FormV::Str(keys[i])]);
        lemma_header_args(name, FormV::Str(keys[i]), seq![keys[i]]);
        let ek1 = crate::evaluator::expand_all(seq![keys[i]], env, vars);
        assert(ek1[0] == ek[i]);
        if test_holds(one, env, vars) {
            let (h, n) = choose|h: int, n: int| 0 <= h < env.headers.len() && 0 <= n < en.len() && eq_ignore_case(
                #[trigger] env.headers[h].0, #[trigger] en[n]) && crate::evaluator::any_key_matches(env.headers[h].1, ek1,
                crate::evaluator::MatchType::Is, Comparator::AsciiCasemap);
            let j = choose|j: int| 0 <= j < ek1.len() && crate::evaluator::match_holds(env.headers[h].1, #[trigger] ek1[j],
                crate::evaluator::MatchType::Is, Comparator::AsciiCasemap);
            assert(n == 0 && j == 0);
        }
        if exists|h: int| 0 <= h < env.headers.len() && eq_ignore_case(#[trigger] env.headers[h].0, en[0])
            && crate::evaluator::match_holds(env.headers[h].1, ek[i], crate::evaluator::MatchType::Is, Comparator::AsciiCasemap) {
            let h = choose|h: int| 0 <= h < env.headers.len() && eq_ignore_case(#[trigger] env.headers[h].0, en[0])
                && crate::evaluator::match_holds(env.headers[h].1, ek[i], crate::evaluator::MatchType::Is, Comparator::AsciiCasemap);
            assert(crate::evaluator::any_key_matches(env.headers[h].1, ek1, crate::evaluator::MatchType::Is, Comparator::AsciiCasemap));
            assert(test_holds(one, env, vars));
        }
    }
    if test_holds(list, env, vars) {
        let (h, n) = choose|h: int, n: int| 0 <= h < env.headers.len() && 0 <= n < en.len() && eq_ignore_case(
            #[trigger] env.headers[h].0, #[trigger] en[n]) && crate::evaluator::any_key_matches(env.headers[h].1, ek,
            crate::evaluator::MatchType::Is, Comparator::AsciiCasemap);
        let i = choose|i: int| 0 <= i < ek.len() && crate::evaluator::match_holds(env.headers[h].1, #[trigger] ek[i],
            crate::evaluator::MatchType::Is, Comparator::AsciiCasemap);
        assert(n == 0);
        assert(header_with_key(name, keys[i], env, vars));
    }
    if exists|i: int| 0 <= i < keys.len() && #[trigger] header_with_key(name, keys[i], env, vars) {
        let i = choose|i: int| 0 <= i < keys.len() && #[trigger] header_with_key(name, keys[i], env, vars);
        let h = choose|h: int| 0 <= h < env.headers.len() && eq_ignore_case(#[trigger] env.headers[h].0, en[0])
            && crate::evaluator::match_holds(env.headers[h].1, ek[i], crate::evaluator::MatchType::Is, Comparator::AsciiCasemap);
        assert(crate::evaluator::any_key_matches(env.headers[h].1, ek, crate::evaluator::MatchType::Is, Comparator::AsciiCasemap));
        assert(en.len() == 1);
    }
}

// ---------------------------------------------------------------------------
// set: substitution before modifiers
// ---------------------------------------------------------------------------

/// `${ref}` reads the variable named by `ref`, lowercased.
proof fn lemma_read_reference(vars: Vars, reference: Seq<char>)
    requires
        !reference.contains('}'),
    ensures
        expand("${"@ + reference + "}"@, true, vars) == var_value(vars, ascii_lower(reference)),
{
    reveal_strlit("${");
    reveal_strlit("}");
    let s = "${"@ + reference + "}"@;
    let c: int = 2 + reference.len() as int;
    assert(s[0] == '$' && s[1] == '{');
    assert(s[c] == '}');
    assert forall|k: int| 2 <= k < c implies s[k] != '}' by {
        assert(s[k] == reference[k - 2]);
    }
    lemma_index_found(s, '}', 2, c);
    assert(s.subrange(2, c) =~= reference);
    assert(expand_from(s, c + 1, vars) =~= Seq::<char>::empty());
    assert(expand_from(s, 0, vars) =~= var_value(vars, ascii_lower(reference)));
}

/// RFC 5229 §4: `set` substitutes variables in the value first and then
/// applies the modifiers, so after `set "a" "v"; set :lower "b" "${a}"`
/// the variable `b` holds the lowercased value of `a` (the RFC's example:
/// `"juMBlEd lETteRS"` becomes `"jumbled letters"`).
pub proof fn set_modifies_the_substituted_value(env: EnvV, vars: Vars, a: Seq<char>, b: Seq<char>, v: Seq<char>)
    requires
        env.variables_enabled,
        is_ascii_text(a),
        is_ascii_text(b),
        !a.contains('}'),
        !b.contains('}'),
    ensures
        ({
            let vars1 = stmt_outcome(seq![FormV::Word("set"@), FormV::Str(a), FormV::Str(v)], env, vars).1;
            let s2 = seq![FormV::Word("set"@), FormV::Tag("lower"@), FormV::Str(b), FormV::Str("${"@ + a + "}"@)];
            let vars2 = stmt_outcome(s2, env, vars1).1;
            expand("${"@ + b + "}"@, true, vars2) == ascii_lower(expand(v, true, vars))
        }),
{
    set_then_read_ascii(env, vars, a, v, a);
    let vars1 = stmt_outcome(seq![FormV::Word("set"@), FormV::Str(a), FormV::Str(v)], env, vars).1;
    let x = "${"@ + a + "}"@;
    let w = expand(x, true, vars1);
    assert(w == expand(v, true, vars));
    let s2 = seq![FormV::Word("set"@), FormV::Tag("lower"@), FormV::Str(b), FormV::Str(x)];
    assert(s2.len() == 4);
    assert(s2[0] == FormV::Word("set"@));
    let rest = s2.subrange(1, 4);
    assert(rest[0] == FormV::Tag("lower"@));
    assert(rest[1] == FormV::Str(b));
    assert(rest[2] == FormV::Str(x));
    let r1 = rest.subrange(1, rest.len() as int);
    assert(r1[0] == FormV::Str(b));
    assert(crate::evaluator::leading_tags(r1) == 0);
    assert(crate::evaluator::leading_tags(rest) == 1);
    let mods = crate::evaluator::tag_names(rest, 1);
    assert(mods =~= seq!["lower"@]);
    lemma_modifier_names();
    assert(seq!["lower"@].drop_last() =~= Seq::<Seq<char>>::empty());
    assert(seq!["lower"@].last() == "lower"@);
    assert(mods.drop_last() =~= Seq::<Seq<char>>::empty());
    assert(mods.last() == "lower"@);
    assert(mods.len() == 1);
    assert(crate::evaluator::apply_modifier(w, "lower"@) == ascii_lower(w));
    assert(apply_level(w, mods.drop_last(), 40) == w);
    assert(apply_level(w, mods, 40) == ascii_lower(w));
    let lw = ascii_lower(w);
    assert(apply_level(lw, mods.drop_last(), 30) == lw);
    assert(apply_level(lw, mods, 30) == lw);
    assert(apply_level(lw, mods.drop_last(), 20) == lw);
    assert(apply_level(lw, mods, 20) == lw);
    assert(apply_level(lw, mods.drop_last(), 10) == lw);
    assert(apply_level(lw, mods, 10) == lw);
    assert(apply_modifiers(w, mods) == ascii_lower(w));
    assert(crate::evaluator::set_outcome(rest, env, vars1) == vars1.insert(name_key(b), ascii_lower(w)));
    assert(!crate::evaluator::string_command(s2, "fileinto"@));
    lemma_words_distinct();
    assert(s2[0]->Word_0 == "set"@);
    assert(!crate::evaluator::word_command(s2, "keep"@));
    let vars2 = stmt_outcome(s2, env, vars1).1;
    assert(vars2 == crate::evaluator::set_outcome(rest, env, vars1));
    lemma_read_reference(vars2, b);
    assert(name_key(b) == ascii_lower(b));
}

/// RFC 5228 §2.7.3: every implementation supports `i;octet` and
/// `i;ascii-casemap`, so `compile` never rejects either as an unsupported
/// comparator.
pub proof fn required_comparators_accepted(src: Seq<char>)
    ensures
        compile_source_outcome(src) matches Err((e, _)) ==> (e.1 matches KindV::UnsupportedComparator(n)
            ==> n != "i;ascii-casemap"@ && n != "i;octet"@),
{
    if let Ok(tokens) = spec_tokenize(src) {
        if let Ok(sv) = spec_read_script(tokens) {
            lemma_list_kind(sv, required_names(sv).to_set());
            lemma_clauses_kind(list_clauses(sv));
        }
    }
}

// ---------------------------------------------------------------------------
// Folded header lines
// ---------------------------------------------------------------------------

proof fn lemma_skip_from_shift(c: char, l: Seq<char>, k: int)
    requires
        0 <= k <= l.len(),
    ensures
        skip_ws_from(seq![c] + l, k + 1) == skip_ws_from(l, k) + 1,
    decreases l.len() - k,
{
    let s = seq![c] + l;
    if k < l.len() {
        assert(s[k + 1] == l[k]);
        lemma_skip_from_shift(c, l, k + 1);
    }
}

proof fn lemma_skip_back_shift(c: char, l: Seq<char>, j: int)
    requires
        0 <= j <= l.len(),
        is_white_space(c),
    ensures
        skip_ws_back(seq![c] + l, j + 1) == if skip_ws_back(l, j) == 0 {
            0
        } else {
            skip_ws_back(l, j) + 1
        },
    decreases j,
{
    let s = seq![c] + l;
    assert(s[0] == c);
    if j > 0 {
        assert(s[j] == l[j - 1]);
        lemma_skip_back_shift(c, l, j - 1);
    } else {
        assert(skip_ws_back(s, 0) == 0);
        assert(skip_ws_back(l, 0) == 0);
        assert(skip_ws_back(s, 1) == skip_ws_back(s, 0));
    }
}

/// Trimming ignores one leading white-space character.
proof fn lemma_trim_drops_leading_space(c: char, l: Seq<char>)
    requires
        is_white_space(c),
    ensures
        trim(seq![c] + l) == trim(l),
{
    let s = seq![c] + l;
    assert(s[0] == c);
    lemma_skip_from_shift(c, l, 0);
    lemma_skip_back_shift(c, l, l.len() as int);
    lemma_skip_ws_from_bounds(l, 0);
    lemma_skip_ws_back_bounds(l, l.len() as int);
    assert(s.len() == l.len() + 1);
    let a = skip_ws_from(l, 0);
    let b = skip_ws_back(l, l.len() as int);
    if a < b {
        assert(s.subrange(a + 1, b + 1) =~= l.subrange(a, b));
    }
}

/// RFC 5322 §2.2.3: a header line folded with a tab reads like one folded
/// with a space: a line led by white space continues the previous header
/// (its trimmed text joins the value after one space) and adds none.
pub proof fn folding_with_tab_or_space_alike(acc: Seq<HeaderV>, l: Seq<char>)
    ensures
        apply_header_line(acc, seq!['\t'] + l) == apply_header_line(acc, seq![' '] + l),
        acc.len() > 0 ==> apply_header_line(acc, seq![' '] + l) == acc.drop_last().push(
            (acc.last().0, acc.last().1 + seq![' '] + trim(l)),
        ),
        acc.len() == 0 ==> apply_header_line(acc, seq![' '] + l) == acc,
{
    let t = seq!['\t'] + l;
    let sp = seq![' '] + l;
    assert(t[0] == '\t');
    assert(sp[0] == ' ');
    lemma_trim_drops_leading_space('\t', l);
    lemma_trim_drops_leading_space(' ', l);
}

} // verus!
