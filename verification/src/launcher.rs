//! Launch preparation: split a command line into program and arguments,
//! and build the child process's environment by layering a stored
//! environment over the parent's variables as overrides.

use vstd::prelude::*;

use crate::environment::{
    distinct_keys, find_key, has_key, lemma_find_key_props, lemma_upsert_other,
    lemma_upsert_same, lookup, upsert, Environment,
};

verus! {

/// Every pair of `ovr` bound on top of `base`, in order.
pub open spec fn upsert_all(
    base: Seq<(Seq<char>, Seq<char>)>,
    ovr: Seq<(Seq<char>, Seq<char>)>,
) -> Seq<(Seq<char>, Seq<char>)>
    decreases ovr.len(),
{
    if ovr.len() == 0 {
        base
    } else {
        upsert_all(upsert(base, ovr[0].0, ovr[0].1), ovr.drop_first())
    }
}

/// The environment a launched child runs under: the parent's variables
/// with the stored environment's variables applied as overrides.
pub fn merge_env(parent: &Vec<(String, String)>, env: &Environment) -> (r: Environment)
    ensures
        r@ == upsert_all(parent.deep_view(), env@),
{
    let ghost base = parent.deep_view();
    let mut merged = Environment { vars: Vec::new() };
    let np = parent.len();
    let mut i: usize = 0;
    proof {
        assert(merged@ =~= base.take(0));
    }
    while i < np
        invariant
            np == parent.len(),
            base == parent.deep_view(),
            i <= np,
            merged@ == base.take(i as int),
        decreases np - i,
    {
        let key = parent[i].0.clone();
        let value = parent[i].1.clone();
        let ghost prev = merged@;
        merged.vars.push((key, value));
        proof {
            assert(merged@ =~= prev.push((base[i as int].0, base[i as int].1)));
            assert(base.take(i + 1) =~= prev.push((base[i as int].0, base[i as int].1)));
        }
        i += 1;
    }
    proof {
        assert(base.take(np as int) =~= base);
        assert(env@.skip(0) =~= env@);
    }
    let ne = env.vars.len();
    let mut j: usize = 0;
    while j < ne
        invariant
            ne == env.vars.len(),
            j <= ne,
            upsert_all(merged@, env@.skip(j as int)) == upsert_all(parent.deep_view(), env@),
        decreases ne - j,
    {
        let key = env.vars[j].0.clone();
        let value = env.vars[j].1.clone();
        let ghost before = merged@;
        merged.set_var(key, value);
        proof {
            let rest = env@.skip(j as int);
            assert(rest.len() > 0);
            assert(rest[0] == env@[j as int]);
            assert(rest.drop_first() =~= env@.skip(j as int + 1));
            assert(upsert_all(before, rest) == upsert_all(merged@, env@.skip(j as int + 1)));
        }
        j += 1;
    }
    proof {
        assert(env@.skip(ne as int) =~= Seq::<(Seq<char>, Seq<char>)>::empty());
    }
    merged
}

/// What a merge gives a child for each variable name: a name the stored
/// environment binds carries its stored value, and any other name keeps
/// whatever the parent bound it to.
pub proof fn lemma_merge_semantics(
    base: Seq<(Seq<char>, Seq<char>)>,
    ovr: Seq<(Seq<char>, Seq<char>)>,
    k: Seq<char>,
)
    requires
        distinct_keys(ovr),
    ensures
        has_key(ovr, k) ==> lookup(upsert_all(base, ovr), k) == lookup(ovr, k),
        !has_key(ovr, k) ==> lookup(upsert_all(base, ovr), k) == lookup(base, k),
    decreases ovr.len(),
{
    if ovr.len() > 0 {
        let k0 = ovr[0].0;
        let v0 = ovr[0].1;
        let base2 = upsert(base, k0, v0);
        let rest = ovr.drop_first();
        assert(forall|m: int| 0 <= m < rest.len() ==> rest[m] == ovr[m + 1]);
        lemma_merge_semantics(base2, rest, k);
        if k == k0 {
            // The first pair already binds `k`; no later pair may.
            lemma_find_key_props(rest, k);
            match find_key(rest, k) {
                Some(m) => {
                    assert(ovr[m + 1].0 == ovr[0].0);
                    assert(false);
                },
                None => {},
            }
            lemma_upsert_same(base, k0, v0);
            assert(lookup(ovr, k) == Some(v0));
        } else {
            // `k`'s fate is decided by the tail alone.
            lemma_find_key_props(rest, k);
            assert(find_key(ovr, k) == match find_key(rest, k) {
                Some(m) => Some(m + 1),
                None => None::<int>,
            });
            match find_key(rest, k) {
                Some(m) => {
                    assert(lookup(ovr, k) == Some(ovr[m + 1].1));
                    assert(lookup(rest, k) == Some(rest[m].1));
                },
                None => {
                    lemma_upsert_other(base, k0, v0, k);
                },
            }
        }
    }
}

/// Split a command line into the program to launch and its arguments:
/// the first word and the rest, or nothing for an empty command line.
pub fn split_command(command_line: &Vec<String>) -> (r: Option<(String, Vec<String>)>)
    ensures
        match r {
            Some(pa) => command_line@.len() > 0 && pa.0@ == command_line.deep_view()[0]
                && pa.1.deep_view() == command_line.deep_view().drop_first(),
            None => command_line@.len() == 0,
        },
{
    let n = command_line.len();
    if n == 0 {
        return None;
    }
    let ghost words = command_line.deep_view();
    let program = command_line[0].clone();
    let mut args: Vec<String> = Vec::new();
    let mut i: usize = 1;
    proof {
        assert(args.deep_view() =~= words.subrange(1, 1));
    }
    while i < n
        invariant
            n == command_line.len(),
            words == command_line.deep_view(),
            1 <= i <= n,
            args.deep_view() == words.subrange(1, i as int),
        decreases n - i,
    {
        let ghost prev = args.deep_view();
        args.push(command_line[i].clone());
        proof {
            assert(args.deep_view() =~= prev.push(words[i as int]));
            assert(words.subrange(1, i + 1) =~= prev.push(words[i as int]));
        }
        i += 1;
    }
    proof {
        assert(words.subrange(1, n as int) =~= words.drop_first());
    }
    Some((program, args))
}

} // verus!
