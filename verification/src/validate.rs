//! Structural validation of a loaded story: the entry link and every option
//! target must resolve, link ids must be unique, and every choice must carry
//! a usable weight set.

use vstd::prelude::*;
use crate::story::{StoryMap, Link, Choice, LinkProbabilityPair, has_link_id, find_link, pair_like, choice_like, link_like, story_like};
use crate::select::{parse_weight, parses_as_weight, all_weights_parse, total_weight, cum_weight, option_weight};

verus! {

/// The distinct kinds of structural integrity violation, each naming the
/// offending place in the story.
#[derive(Debug)]
pub enum ValidationError {
    MissingInitLink,
    DanglingOptionTarget { link_index: usize, choice_index: usize, option_index: usize },
    DuplicateLinkId { link_index: usize },
    EmptyOrZeroWeightChoice { link_index: usize, choice_index: usize },
}

/// Whether no two links share an id.
pub open spec fn ids_unique(links: Seq<Link>) -> bool {
    forall|a: int, b: int| 0 <= a < b < links.len() ==> links[a].id@ != links[b].id@
}

/// Whether a choice can be resolved: it has at least one option, every
/// option's weight parses, and the weights do not sum to zero.
pub open spec fn choice_ok(c: Choice) -> bool {
    &&& c.options@.len() > 0
    &&& all_weights_parse(c.options@)
    &&& total_weight(c.options@) > 0
}

/// Whether every choice of every link can be resolved.
pub open spec fn choices_ok(links: Seq<Link>) -> bool {
    forall|a: int, b: int|
        0 <= a < links.len() && 0 <= b < links[a].choices@.len() ==> choice_ok(
            #[trigger] links[a].choices@[b],
        )
}

/// Whether every option target names an existing link.
pub open spec fn targets_ok(links: Seq<Link>) -> bool {
    forall|a: int, b: int, c: int|
        0 <= a < links.len() && 0 <= b < links[a].choices@.len() && 0 <= c
            < links[a].choices@[b].options@.len() ==> has_link_id(
            links,
            (#[trigger] links[a].choices@[b].options@[c]).link@,
        )
}

/// Full structural validity of a story.
pub open spec fn story_valid(s: StoryMap) -> bool {
    &&& has_link_id(s.links@, s.init_link_id@)
    &&& targets_ok(s.links@)
    &&& ids_unique(s.links@)
    &&& choices_ok(s.links@)
}

/// Decides whether one choice can be resolved.
pub fn choice_weights_ok(c: &Choice) -> (b: bool)
    ensures
        b == choice_ok(*c),
{
    let n = c.options.len();
    if n == 0 {
        return false;
    }
    let mut total: u128 = 0;
    for k in 0..n
        invariant
            n == c.options@.len(),
            forall|m: int|
                0 <= m < k ==> parses_as_weight(#[trigger] c.options@[m].probability@),
            total == cum_weight(c.options@, k as int),
            total <= k as u128 * 0xFFFF_FFFFu128,
    {
        let w = match parse_weight(c.options[k].probability.as_str()) {
            Some(w) => w,
            None => {
                return false;
            },
        };
        proof {
            assert((k + 1) as u128 * 0xFFFF_FFFFu128 == k as u128 * 0xFFFF_FFFFu128
                + 0xFFFF_FFFFu128) by (nonlinear_arith);
            assert(k as u128 * 0xFFFF_FFFFu128 <= 0xFFFF_FFFF_FFFF_FFFFu128
                * 0xFFFF_FFFFu128) by (nonlinear_arith)
                requires k as u128 <= 0xFFFF_FFFF_FFFF_FFFFu128;
            assert(cum_weight(c.options@, k as int + 1) == cum_weight(c.options@, k as int)
                + option_weight(c.options@[k as int]));
        }
        total = total + w as u128;
    }
    total > 0
}

/// Checks the story's structural invariants. Succeeds exactly on valid
/// stories; each failure reports the kind of violation and where it stands.
pub fn validate(story: &StoryMap) -> (r: Result<(), ValidationError>)
    ensures
        r is Ok <==> story_valid(*story),
        match r {
            Ok(()) => story_valid(*story),
            Err(ValidationError::MissingInitLink) => !has_link_id(
                story.links@,
                story.init_link_id@,
            ),
            Err(ValidationError::DanglingOptionTarget { link_index, choice_index, option_index }) => {
                &&& link_index < story.links@.len()
                &&& choice_index < story.links@[link_index as int].choices@.len()
                &&& option_index < story.links@[link_index as int].choices@[
                    choice_index as int].options@.len()
                &&& !has_link_id(
                    story.links@,
                    story.links@[link_index as int].choices@[choice_index as int].options@[
                        option_index as int].link@,
                )
            },
            Err(ValidationError::DuplicateLinkId { link_index }) => {
                &&& link_index < story.links@.len()
                &&& exists|a: int|
                    0 <= a < link_index && story.links@[a].id@ == story.links@[
                        link_index as int].id@
            },
            Err(ValidationError::EmptyOrZeroWeightChoice { link_index, choice_index }) => {
                &&& link_index < story.links@.len()
                &&& choice_index < story.links@[link_index as int].choices@.len()
                &&& !choice_ok(story.links@[link_index as int].choices@[choice_index as int])
            },
        },
{
    if find_link(&story.links, &story.init_link_id).is_none() {
        return Err(ValidationError::MissingInitLink);
    }
    let n = story.links.len();
    for i in 0..n
        invariant
            n == story.links@.len(),
            forall|a: int, b: int| 0 <= a < b < i ==> story.links@[a].id@ != story.links@[b].id@,
    {
        for j in 0..i
            invariant
                i < n,
                n == story.links@.len(),
                forall|a: int| 0 <= a < j ==> story.links@[a].id@ != story.links@[i as int].id@,
        {
            if story.links[j].id.eq(&story.links[i].id) {
                return Err(ValidationError::DuplicateLinkId { link_index: i });
            }
        }
    }
    for i in 0..n
        invariant
            n == story.links@.len(),
            forall|a: int, b: int|
                0 <= a < i && 0 <= b < story.links@[a].choices@.len() ==> choice_ok(
                    #[trigger] story.links@[a].choices@[b],
                ),
    {
        let m = story.links[i].choices.len();
        for j in 0..m
            invariant
                i < n,
                n == story.links@.len(),
                m == story.links@[i as int].choices@.len(),
                forall|b: int|
                    0 <= b < j ==> choice_ok(#[trigger] story.links@[i as int].choices@[b]),
        {
            if !choice_weights_ok(&story.links[i].choices[j]) {
                return Err(ValidationError::EmptyOrZeroWeightChoice {
                    link_index: i,
                    choice_index: j,
                });
            }
        }
    }
    for i in 0..n
        invariant
            n == story.links@.len(),
            forall|a: int, b: int, c: int|
                0 <= a < i && 0 <= b < story.links@[a].choices@.len() && 0 <= c
                    < story.links@[a].choices@[b].options@.len() ==> has_link_id(
                    story.links@,
                    (#[trigger] story.links@[a].choices@[b].options@[c]).link@,
                ),
    {
        let m = story.links[i].choices.len();
        for j in 0..m
            invariant
                i < n,
                n == story.links@.len(),
                m == story.links@[i as int].choices@.len(),
                forall|b: int, c: int|
                    0 <= b < j && 0 <= c < story.links@[i as int].choices@[b].options@.len()
                        ==> has_link_id(
                        story.links@,
                        (#[trigger] story.links@[i as int].choices@[b].options@[c]).link@,
                    ),
        {
            let p = story.links[i].choices[j].options.len();
            for k in 0..p
                invariant
                    i < n,
                    j < m,
                    n == story.links@.len(),
                    m == story.links@[i as int].choices@.len(),
                    p == story.links@[i as int].choices@[j as int].options@.len(),
                    forall|c: int|
                        0 <= c < k ==> has_link_id(
                            story.links@,
                            (#[trigger] story.links@[i as int].choices@[j as int].options@[
                                c]).link@,
                        ),
            {
                if find_link(&story.links, &story.links[i].choices[j].options[k].link).is_none() {
                    return Err(ValidationError::DanglingOptionTarget {
                        link_index: i,
                        choice_index: j,
                        option_index: k,
                    });
                }
            }
        }
    }
    Ok(())
}

proof fn lemma_cum_weight_like(xs: Seq<LinkProbabilityPair>, ys: Seq<LinkProbabilityPair>, k: int)
    requires
        0 <= k <= xs.len(),
        xs.len() == ys.len(),
        forall|i: int| 0 <= i < xs.len() ==> pair_like(#[trigger] xs[i], ys[i]),
    ensures
        cum_weight(xs, k) == cum_weight(ys, k),
    decreases k,
{
    if k > 0 {
        lemma_cum_weight_like(xs, ys, k - 1);
    }
}

/// Choices of the same structure are resolvable alike.
proof fn lemma_choice_ok_like(x: Choice, y: Choice)
    requires
        choice_like(x, y),
    ensures
        choice_ok(x) == choice_ok(y),
{
    if all_weights_parse(x.options@) {
        assert forall|i: int| 0 <= i < y.options@.len() implies parses_as_weight(
            #[trigger] y.options@[i].probability@,
        ) by {
            assert(pair_like(x.options@[i], y.options@[i]));
            assert(parses_as_weight(x.options@[i].probability@));
        }
    }
    if all_weights_parse(y.options@) {
        assert forall|i: int| 0 <= i < x.options@.len() implies parses_as_weight(
            #[trigger] x.options@[i].probability@,
        ) by {
            assert(pair_like(x.options@[i], y.options@[i]));
            assert(parses_as_weight(y.options@[i].probability@));
        }
    }
    lemma_cum_weight_like(x.options@, y.options@, x.options@.len() as int);
}

proof fn lemma_has_link_id_like(xs: Seq<Link>, ys: Seq<Link>, id: Seq<char>)
    requires
        xs.len() == ys.len(),
        forall|i: int| 0 <= i < xs.len() ==> link_like(#[trigger] xs[i], ys[i]),
        has_link_id(xs, id),
    ensures
        has_link_id(ys, id),
{
    let i = choose|i: int| 0 <= i < xs.len() && xs[i].id@ == id;
    assert(link_like(xs[i], ys[i]));
    assert(ys[i].id@ == id);
}

proof fn lemma_like_valid_one_way(x: StoryMap, y: StoryMap)
    requires
        story_like(x, y),
        story_valid(x),
    ensures
        story_valid(y),
{
    lemma_has_link_id_like(x.links@, y.links@, x.init_link_id@);
    assert forall|a: int, b: int, c: int|
        0 <= a < y.links@.len() && 0 <= b < y.links@[a].choices@.len() && 0 <= c
            < y.links@[a].choices@[b].options@.len() implies has_link_id(
        y.links@,
        (#[trigger] y.links@[a].choices@[b].options@[c]).link@,
    ) by {
        assert(link_like(x.links@[a], y.links@[a]));
        assert(choice_like(x.links@[a].choices@[b], y.links@[a].choices@[b]));
        assert(pair_like(
            x.links@[a].choices@[b].options@[c],
            y.links@[a].choices@[b].options@[c],
        ));
        assert(has_link_id(x.links@, x.links@[a].choices@[b].options@[c].link@));
        lemma_has_link_id_like(
            x.links@,
            y.links@,
            x.links@[a].choices@[b].options@[c].link@,
        );
    }
    assert forall|a: int, b: int| 0 <= a < b < y.links@.len() implies y.links@[a].id@
        != y.links@[b].id@ by {
        assert(link_like(x.links@[a], y.links@[a]));
        assert(link_like(x.links@[b], y.links@[b]));
    }
    assert forall|a: int, b: int|
        0 <= a < y.links@.len() && 0 <= b < y.links@[a].choices@.len() implies choice_ok(
        #[trigger] y.links@[a].choices@[b],
    ) by {
        assert(link_like(x.links@[a], y.links@[a]));
        assert(choice_like(x.links@[a].choices@[b], y.links@[a].choices@[b]));
        assert(choice_ok(x.links@[a].choices@[b]));
        lemma_choice_ok_like(x.links@[a].choices@[b], y.links@[a].choices@[b]);
    }
}

proof fn lemma_story_like_sym(x: StoryMap, y: StoryMap)
    requires
        story_like(x, y),
    ensures
        story_like(y, x),
{
    assert forall|i: int| 0 <= i < y.links@.len() implies link_like(
        #[trigger] y.links@[i],
        x.links@[i],
    ) by {
        assert(link_like(x.links@[i], y.links@[i]));
        let xl = x.links@[i];
        let yl = y.links@[i];
        assert forall|j: int| 0 <= j < yl.choices@.len() implies choice_like(
            #[trigger] yl.choices@[j],
            xl.choices@[j],
        ) by {
            assert(choice_like(xl.choices@[j], yl.choices@[j]));
            assert forall|k: int| 0 <= k < yl.choices@[j].options@.len() implies pair_like(
                #[trigger] yl.choices@[j].options@[k],
                xl.choices@[j].options@[k],
            ) by {
                assert(pair_like(xl.choices@[j].options@[k], yl.choices@[j].options@[k]));
            }
        }
    }
}

/// Law: stories of the same structure, character for character, validate
/// identically.
pub proof fn lemma_like_stories_validate_alike(x: StoryMap, y: StoryMap)
    requires
        story_like(x, y),
    ensures
        story_valid(x) == story_valid(y),
{
    if story_valid(x) {
        lemma_like_valid_one_way(x, y);
    }
    if story_valid(y) {
        lemma_story_like_sym(x, y);
        lemma_like_valid_one_way(y, x);
    }
}

} // verus!
