//! Tag-combination expansion: the cartesian product over a project's
//! multi-valued tags, producing one resolved environment per combination.
//!
//! Environments come out with the earliest tag varying slowest and the last
//! tag varying fastest, matching the order in which nested loops over the
//! tag map would emit them. A project without any tags expands to no
//! environments at all, not to one empty environment.

use vstd::prelude::*;

verus! {

/// Every environment extended at the front with one fixed binding.
pub open spec fn prepend_each(
    tag: Seq<char>,
    value: Seq<char>,
    envs: Seq<Seq<(Seq<char>, Seq<char>)>>,
) -> Seq<Seq<(Seq<char>, Seq<char>)>> {
    envs.map_values(|e: Seq<(Seq<char>, Seq<char>)>| seq![(tag, value)] + e)
}

/// One multi-valued tag distributed over a set of environments: for each of
/// the tag's values in order, every environment extended with that binding.
pub open spec fn prod_one(
    tag: Seq<char>,
    values: Seq<Seq<char>>,
    envs: Seq<Seq<(Seq<char>, Seq<char>)>>,
) -> Seq<Seq<(Seq<char>, Seq<char>)>>
    decreases values.len(),
{
    if values.len() == 0 {
        Seq::empty()
    } else {
        prepend_each(tag, values[0], envs) + prod_one(
            tag,
            values.subrange(1, values.len() as int),
            envs,
        )
    }
}

/// The cartesian product of a tag map: one environment per combination of
/// one value for each tag.
pub open spec fn prod_spec(tags: Seq<(Seq<char>, Seq<Seq<char>>)>) -> Seq<
    Seq<(Seq<char>, Seq<char>)>,
>
    decreases tags.len(),
{
    if tags.len() == 0 {
        seq![Seq::<(Seq<char>, Seq<char>)>::empty()]
    } else {
        prod_one(tags[0].0, tags[0].1, prod_spec(tags.subrange(1, tags.len() as int)))
    }
}

/// The environments a project's tag map expands to: its cartesian product,
/// except that an empty tag map yields no environments.
pub open spec fn expand_spec(tags: Seq<(Seq<char>, Seq<Seq<char>>)>) -> Seq<
    Seq<(Seq<char>, Seq<char>)>,
> {
    if tags.len() == 0 {
        Seq::empty()
    } else {
        prod_spec(tags)
    }
}

/// The number of combinations a tag map has: the product of the value counts
/// of its tags.
pub open spec fn count_product(tags: Seq<(Seq<char>, Seq<Seq<char>>)>) -> nat
    decreases tags.len(),
{
    if tags.len() == 0 {
        1
    } else {
        tags[0].1.len() * count_product(tags.subrange(1, tags.len() as int))
    }
}

proof fn lemma_prod_one_len(
    tag: Seq<char>,
    values: Seq<Seq<char>>,
    envs: Seq<Seq<(Seq<char>, Seq<char>)>>,
)
    ensures
        prod_one(tag, values, envs).len() == values.len() * envs.len(),
    decreases values.len(),
{
    if values.len() == 0 {
        assert(values.len() * envs.len() == 0) by (nonlinear_arith)
            requires
                values.len() == 0,
        ;
    } else {
        let tail = values.subrange(1, values.len() as int);
        lemma_prod_one_len(tag, tail, envs);
        assert(values.len() * envs.len() == envs.len() + (values.len() - 1) * envs.len())
            by (nonlinear_arith)
            requires
                values.len() >= 1,
        ;
    }
}

/// How many environments a tag map expands to: none for an empty map, and
/// the product of the value counts otherwise. In particular one tag with an
/// empty value set makes the whole expansion empty.
pub proof fn lemma_expand_len(tags: Seq<(Seq<char>, Seq<Seq<char>>)>)
    ensures
        expand_spec(tags).len() == if tags.len() == 0 {
            0nat
        } else {
            count_product(tags)
        },
    decreases tags.len(),
{
    if tags.len() > 0 {
        let tail = tags.subrange(1, tags.len() as int);
        lemma_expand_len(tail);
        lemma_prod_one_len(tags[0].0, tags[0].1, prod_spec(tail));
        assert(expand_spec(tags) == prod_spec(tags));
        assert(prod_spec(tags) == prod_one(tags[0].0, tags[0].1, prod_spec(tail)));
        assert(count_product(tags) == tags[0].1.len() * count_product(tail));
        if tail.len() == 0 {
            assert(prod_spec(tail).len() == 1);
            assert(count_product(tail) == 1);
            assert(tags[0].1.len() * 1nat == tags[0].1.len()) by (nonlinear_arith);
            assert(prod_spec(tail).len() == count_product(tail));
        } else {
            assert(expand_spec(tail) == prod_spec(tail));
            assert(prod_spec(tail).len() == count_product(tail));
        }
        assert(expand_spec(tags).len() == tags[0].1.len() * prod_spec(tail).len());
        assert(tags[0].1.len() * prod_spec(tail).len() == tags[0].1.len() * count_product(tail))
            by (nonlinear_arith)
            requires
                prod_spec(tail).len() == count_product(tail),
        ;
    }
}

/// Distributing one more value appends that value's environments.
proof fn lemma_prod_one_push(
    tag: Seq<char>,
    values: Seq<Seq<char>>,
    v: Seq<char>,
    envs: Seq<Seq<(Seq<char>, Seq<char>)>>,
)
    ensures
        prod_one(tag, values.push(v), envs) == prod_one(tag, values, envs) + prepend_each(
            tag,
            v,
            envs,
        ),
    decreases values.len(),
{
    let pushed = values.push(v);
    if values.len() == 0 {
        assert(pushed[0] == v);
        assert(pushed.subrange(1, pushed.len() as int) =~= values);
        assert(pushed.subrange(1, pushed.len() as int) =~= Seq::<Seq<char>>::empty());
        assert(prod_one(tag, pushed, envs) =~~= prod_one(tag, values, envs) + prepend_each(
            tag,
            v,
            envs,
        ));
    } else {
        let tail = values.subrange(1, values.len() as int);
        lemma_prod_one_push(tag, tail, v, envs);
        assert(pushed.subrange(1, pushed.len() as int) =~= tail.push(v));
        assert(prod_one(tag, pushed, envs) == prepend_each(tag, values[0], envs) + (prod_one(
            tag,
            tail,
            envs,
        ) + prepend_each(tag, v, envs)));
        assert(prepend_each(tag, values[0], envs) + (prod_one(tag, tail, envs) + prepend_each(
            tag,
            v,
            envs,
        )) =~~= (prepend_each(tag, values[0], envs) + prod_one(tag, tail, envs)) + prepend_each(
            tag,
            v,
            envs,
        ));
    }
}

/// One environment, copied.
fn clone_env(e: &Vec<(String, String)>) -> (r: Vec<(String, String)>)
    ensures
        r.deep_view() == e.deep_view(),
{
    let mut r: Vec<(String, String)> = Vec::new();
    let mut i: usize = 0;
    while i < e.len()
        invariant
            i <= e@.len(),
            e@.len() == e.deep_view().len(),
            r.deep_view() =~= e.deep_view().subrange(0, i as int),
        decreases e@.len() - i,
    {
        assert(e.deep_view()[i as int] == (e@[i as int].0@, e@[i as int].1@));
        let ghost r_old = r.deep_view();
        r.push((e[i].0.clone(), e[i].1.clone()));
        proof {
            assert(r.deep_view() =~= r_old.push((e@[i as int].0@, e@[i as int].1@)));
            assert(e.deep_view().subrange(0, i + 1) =~= e.deep_view().subrange(0, i as int).push(
                e.deep_view()[i as int],
            ));
            assert(r.deep_view() =~= e.deep_view().subrange(0, i + 1));
        }
        i = i + 1;
    }
    assert(e.deep_view().subrange(0, e@.len() as int) =~= e.deep_view());
    r
}

/// Every environment extended at the front with the binding `tag: value`.
#[verifier::loop_isolation(false)]
fn prepend_each_exec(tag: &String, value: &String, envs: &Vec<Vec<(String, String)>>) -> (r: Vec<
    Vec<(String, String)>,
>)
    ensures
        r.deep_view() == prepend_each(tag@, value@, envs.deep_view()),
{
    let mut r: Vec<Vec<(String, String)>> = Vec::new();
    let mut i: usize = 0;
    while i < envs.len()
        invariant
            i <= envs@.len(),
            r.deep_view() =~= prepend_each(tag@, value@, envs.deep_view().subrange(0, i as int)),
        decreases envs@.len() - i,
    {
        let mut e: Vec<(String, String)> = Vec::new();
        e.push((tag.clone(), value.clone()));
        let mut rest = clone_env(&envs[i]);
        e.append(&mut rest);
        proof {
            assert(envs.deep_view()[i as int] == envs@[i as int].deep_view());
            assert(e.deep_view() =~= seq![(tag@, value@)] + envs.deep_view()[i as int]);
        }
        let ghost r_old = r.deep_view();
        r.push(e);
        proof {
            assert(r.deep_view() =~~= r_old.push(e.deep_view()));
            assert(envs.deep_view().subrange(0, i + 1) =~= envs.deep_view().subrange(
                0,
                i as int,
            ).push(envs.deep_view()[i as int]));
            assert(prepend_each(tag@, value@, envs.deep_view().subrange(0, i + 1)) =~~=
                prepend_each(tag@, value@, envs.deep_view().subrange(0, i as int)).push(
                seq![(tag@, value@)] + envs.deep_view()[i as int],
            ));
        }
        i = i + 1;
    }
    proof {
        assert(envs.deep_view().subrange(0, envs@.len() as int) =~= envs.deep_view());
    }
    r
}

/// Expands a project's tag map into all of its resolved environments.
#[verifier::loop_isolation(false)]
pub fn expand_tags(tags: &Vec<(String, Vec<String>)>) -> (r: Vec<Vec<(String, String)>>)
    ensures
        r.deep_view() == expand_spec(tags.deep_view()),
{
    if tags.len() == 0 {
        let r: Vec<Vec<(String, String)>> = Vec::new();
        assert(r.deep_view() =~= expand_spec(tags.deep_view()));
        return r;
    }
    let ghost tags_view = tags.deep_view();
    // Walk the tags from the last to the first, so that at every step the
    // environments built so far are the product of the tags already seen.
    let mut envs: Vec<Vec<(String, String)>> = Vec::new();
    let empty_env: Vec<(String, String)> = Vec::new();
    envs.push(empty_env);
    proof {
        assert(tags_view.subrange(tags@.len() as int, tags_view.len() as int) =~= Seq::<
            (Seq<char>, Seq<Seq<char>>),
        >::empty());
        assert(envs.deep_view() =~~= prod_spec(
            tags_view.subrange(tags@.len() as int, tags_view.len() as int),
        ));
    }
    let mut i: usize = tags.len();
    while i > 0
        invariant
            i <= tags@.len(),
            envs.deep_view() == prod_spec(tags_view.subrange(i as int, tags_view.len() as int)),
        decreases i,
    {
        i = i - 1;
        let ghost suffix = tags_view.subrange(i as int, tags_view.len() as int);
        let ghost prev = tags_view.subrange(i + 1, tags_view.len() as int);
        proof {
            assert(suffix[0] == tags_view[i as int]);
            assert(suffix.subrange(1, suffix.len() as int) =~= prev);
        }
        assert(tags_view[i as int] == (tags@[i as int].0@, tags@[i as int].1.deep_view()));
        let tag = &tags[i].0;
        let values = &tags[i].1;
        let mut next: Vec<Vec<(String, String)>> = Vec::new();
        let mut j: usize = 0;
        proof {
            assert(values.deep_view().subrange(0, 0) =~= Seq::<Seq<char>>::empty());
            assert(next.deep_view() =~= prod_one(
                tag@,
                values.deep_view().subrange(0, 0),
                envs.deep_view(),
            ));
        }
        while j < values.len()
            invariant
                j <= values@.len(),
                next.deep_view() == prod_one(
                    tag@,
                    values.deep_view().subrange(0, j as int),
                    envs.deep_view(),
                ),
            decreases values@.len() - j,
        {
            assert(values.deep_view()[j as int] == values@[j as int]@);
            let mut block = prepend_each_exec(tag, &values[j], &envs);
            let ghost next_old = next.deep_view();
            next.append(&mut block);
            proof {
                lemma_prod_one_push(
                    tag@,
                    values.deep_view().subrange(0, j as int),
                    values.deep_view()[j as int],
                    envs.deep_view(),
                );
                assert(values.deep_view().subrange(0, j + 1) =~= values.deep_view().subrange(
                    0,
                    j as int,
                ).push(values.deep_view()[j as int]));
                assert(next.deep_view() =~= next_old + prepend_each(
                    tag@,
                    values.deep_view()[j as int],
                    envs.deep_view(),
                ));
            }
            j = j + 1;
        }
        proof {
            assert(values.deep_view().subrange(0, values@.len() as int) =~= values.deep_view());
            assert(prod_spec(suffix) == prod_one(tags_view[i as int].0, tags_view[i as int].1,
                prod_spec(prev)));
        }
        envs = next;
    }
    proof {
        assert(tags_view.subrange(0, tags_view.len() as int) =~= tags_view);
    }
    envs
}

} // verus!
