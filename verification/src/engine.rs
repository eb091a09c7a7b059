//! The traversal engine: a state machine over the player's position that
//! looks up the current link, detects terminal links, accepts a choice
//! index, and advances through weighted selection.

use vstd::prelude::*;
use crate::story::{StoryMap, Link, has_link_id, is_first_match, find_link};
use crate::select::{resolve, SelectError, option_weight, parses_as_weight, all_weights_parse, total_weight};
use crate::validate::{story_valid, choice_ok};

verus! {

/// The player's place in a playthrough: at the link named by `link_id`, or
/// past a terminal link.
#[derive(Debug)]
pub enum PlayerPosition {
    Active { link_id: String },
    Ended,
}

/// Fatal engine errors: a current link id that resolves to no link of the
/// story, or a failure of weighted selection.
#[derive(Debug)]
pub enum EngineError {
    Integrity { link_id: String },
    Select(SelectError),
}

/// The id an active position stands on; the empty sequence for an ended one.
pub open spec fn active_link_id(p: PlayerPosition) -> Seq<char> {
    match p {
        PlayerPosition::Active { link_id } => link_id@,
        PlayerPosition::Ended => Seq::empty(),
    }
}

/// Whether a position can be looked up in the story: every active position
/// must stand on an existing link.
pub open spec fn position_resolvable(links: Seq<Link>, p: PlayerPosition) -> bool {
    match p {
        PlayerPosition::Active { link_id } => has_link_id(links, link_id@),
        PlayerPosition::Ended => true,
    }
}

/// Starts a playthrough at the story's entry link.
pub fn begin(story: &StoryMap) -> (p: PlayerPosition)
    ensures
        p matches PlayerPosition::Active { link_id } && link_id@ == story.init_link_id@,
        has_link_id(story.links@, story.init_link_id@) ==> position_resolvable(story.links@, p),
{
    PlayerPosition::Active { link_id: story.init_link_id.clone() }
}

/// Looks at the current position. An ended position stays ended; an active
/// position on a terminal link (one without choices) ends the playthrough;
/// an active position on a link with choices is left unchanged and the
/// link's index is handed out; an active position on a missing link is a
/// fatal integrity error.
pub fn observe(story: &StoryMap, position: &mut PlayerPosition) -> (r: Result<
    Option<usize>,
    EngineError,
>)
    ensures
        match r {
            Ok(out) => match out {
                Some(i) => {
                    &&& *final(position) == *old(position)
                    &&& is_first_match(story.links@, active_link_id(*old(position)), i as int)
                    &&& *old(position) matches PlayerPosition::Active { .. }
                    &&& story.links@[i as int].choices@.len() > 0
                },
                None => {
                    &&& *final(position) is Ended
                    &&& match *old(position) {
                        PlayerPosition::Ended => true,
                        PlayerPosition::Active { link_id } => exists|i: int|
                            is_first_match(story.links@, link_id@, i)
                                && story.links@[i].choices@.len() == 0,
                    }
                },
            },
            Err(EngineError::Integrity { link_id }) => {
                &&& *final(position) == *old(position)
                &&& *old(position) matches PlayerPosition::Active { .. }
                &&& link_id@ == active_link_id(*old(position))
                &&& !has_link_id(story.links@, link_id@)
            },
            Err(EngineError::Select(_)) => false,
        },
        *old(position) is Ended ==> r == Result::<Option<usize>, EngineError>::Ok(
            Option::<usize>::None,
        ),
        position_resolvable(story.links@, *old(position)) ==> r is Ok,
        position_resolvable(story.links@, *old(position)) ==> position_resolvable(
            story.links@,
            *final(position),
        ),
{
    let link_id = match &*position {
        PlayerPosition::Ended => {
            return Ok(None);
        },
        PlayerPosition::Active { link_id } => link_id.clone(),
    };
    match find_link(&story.links, &link_id) {
        None => Err(EngineError::Integrity { link_id }),
        Some(i) => {
            if story.links[i].choices.len() == 0 {
                *position = PlayerPosition::Ended;
                Ok(None)
            } else {
                Ok(Some(i))
            }
        },
    }
}

/// The engine's acceptance predicate for a raw selection from the input
/// collaborator: accepted exactly when an integer inside
/// `[1, number_of_choices]` was supplied.
pub open spec fn index_accepted(number_of_choices: int, raw: Option<usize>) -> bool {
    match raw {
        Some(v) => 1 <= v && v <= number_of_choices,
        None => false,
    }
}

/// Decides whether a raw selection is accepted; a rejected one is to be
/// re-prompted for, and no state changes on rejection.
pub fn accept_index(number_of_choices: usize, raw: Option<usize>) -> (b: bool)
    ensures
        b == index_accepted(number_of_choices as int, raw),
{
    match raw {
        Some(v) => 1 <= v && v <= number_of_choices,
        None => false,
    }
}

/// Resolves the accepted choice of the current link through weighted
/// selection and moves the position to the drawn target link. On any error
/// the position is left unchanged.
pub fn advance(story: &StoryMap, position: &mut PlayerPosition, choice_number: usize) -> (r: Result<
    (),
    EngineError,
>)
    requires
        *old(position) matches PlayerPosition::Active { .. },
        forall|i: int|
            is_first_match(story.links@, active_link_id(*old(position)), i) ==> 1 <= choice_number
                && choice_number as int <= story.links@[i].choices@.len(),
    ensures
        match r {
            Ok(()) => exists|i: int|
                {
                    &&& #[trigger] is_first_match(
                        story.links@,
                        active_link_id(*old(position)),
                        i,
                    )
                    &&& exists|k: int|
                        {
                            &&& 0 <= k < story.links@[i].choices@[choice_number as int
                                - 1].options@.len()
                            &&& option_weight(
                                #[trigger] story.links@[i].choices@[choice_number as int
                                    - 1].options@[k],
                            ) > 0
                            &&& active_link_id(*final(position)) == story.links@[i].choices@[
                                choice_number as int - 1].options@[k].link@
                            &&& *final(position) matches PlayerPosition::Active { .. }
                        }
                },
            Err(EngineError::Integrity { link_id }) => {
                &&& *final(position) == *old(position)
                &&& link_id@ == active_link_id(*old(position))
                &&& !has_link_id(story.links@, link_id@)
            },
            Err(EngineError::Select(e)) => {
                &&& *final(position) == *old(position)
                &&& exists|i: int|
                    {
                        let opts = story.links@[i].choices@[choice_number as int - 1].options@;
                        &&& #[trigger] is_first_match(
                            story.links@,
                            active_link_id(*old(position)),
                            i,
                        )
                        &&& match e {
                            SelectError::Config { option_index } => option_index < opts.len()
                                && !parses_as_weight(opts[option_index as int].probability@),
                            SelectError::Distribution => all_weights_parse(opts)
                                && total_weight(opts) == 0,
                        }
                    }
            },
        },
        forall|i: int|
            is_first_match(story.links@, active_link_id(*old(position)), i) && choice_ok(
                story.links@[i].choices@[choice_number as int - 1],
            ) ==> r is Ok,
        story_valid(*story) && position_resolvable(story.links@, *old(position))
            ==> position_resolvable(story.links@, *final(position)),
{
    let link_id = match &*position {
        PlayerPosition::Active { link_id } => link_id.clone(),
        PlayerPosition::Ended => {
            proof {
                assert(false);
            }
            return Err(EngineError::Integrity { link_id: String::new() });
        },
    };
    match find_link(&story.links, &link_id) {
        None => Err(EngineError::Integrity { link_id }),
        Some(i) => {
            proof {
                assert(is_first_match(story.links@, active_link_id(*old(position)), i as int));
            }
            let options = &story.links[i].choices[choice_number - 1].options;
            match resolve(options) {
                Ok(next) => {
                    *position = PlayerPosition::Active { link_id: next };
                    Ok(())
                },
                Err(e) => Err(EngineError::Select(e)),
            }
        },
    }
}

/// Law: in a validated story, every choice of every link can be resolved,
/// so weighted selection cannot fail once `validate` has succeeded.
pub proof fn lemma_valid_story_choices_resolvable(s: StoryMap, i: int, j: int)
    requires
        story_valid(s),
        0 <= i < s.links@.len(),
        0 <= j < s.links@[i].choices@.len(),
    ensures
        choice_ok(s.links@[i].choices@[j]),
{
}

} // verus!
