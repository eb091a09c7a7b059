//! The story model: the graph data structures and lookup by link id.

use vstd::prelude::*;
use vstd::string::StringExecFns;

verus! {

/// A weighted edge: the id of a target link together with its unnormalized
/// weight, kept as the decimal text it was loaded from.
#[derive(Debug)]
pub struct LinkProbabilityPair {
    pub link: String,
    pub probability: String,
}

/// A decision point inside a link: a prompt and the weighted options it
/// resolves through.
#[derive(Debug)]
pub struct Choice {
    pub description: String,
    pub options: Vec<LinkProbabilityPair>,
}

/// A node of the narrative graph. An empty choice list marks a terminal link.
#[derive(Debug)]
pub struct Link {
    pub id: String,
    pub description: String,
    pub choices: Vec<Choice>,
}

/// A whole story: identity fields, the entry link id, and the links.
#[derive(Debug)]
pub struct StoryMap {
    pub id: String,
    pub name: String,
    pub description: String,
    pub init_link_id: String,
    pub links: Vec<Link>,
}

/// Whether two options carry the same target id and weight text.
pub open spec fn pair_like(x: LinkProbabilityPair, y: LinkProbabilityPair) -> bool {
    x.link@ == y.link@ && x.probability@ == y.probability@
}

/// Whether two choices carry the same prompt and the same options.
pub open spec fn choice_like(x: Choice, y: Choice) -> bool {
    &&& x.description@ == y.description@
    &&& x.options@.len() == y.options@.len()
    &&& forall|i: int|
        0 <= i < x.options@.len() ==> pair_like(#[trigger] x.options@[i], y.options@[i])
}

/// Whether two links carry the same id, text, and choices.
pub open spec fn link_like(x: Link, y: Link) -> bool {
    &&& x.id@ == y.id@
    &&& x.description@ == y.description@
    &&& x.choices@.len() == y.choices@.len()
    &&& forall|i: int|
        0 <= i < x.choices@.len() ==> choice_like(#[trigger] x.choices@[i], y.choices@[i])
}

/// Whether two stories carry the same fields and the same graph, character
/// for character.
pub open spec fn story_like(x: StoryMap, y: StoryMap) -> bool {
    &&& x.id@ == y.id@
    &&& x.name@ == y.name@
    &&& x.description@ == y.description@
    &&& x.init_link_id@ == y.init_link_id@
    &&& x.links@.len() == y.links@.len()
    &&& forall|i: int| 0 <= i < x.links@.len() ==> link_like(#[trigger] x.links@[i], y.links@[i])
}

/// Structural likeness transfers across a shared middle story.
pub proof fn lemma_story_like_sym_trans(a: StoryMap, b: StoryMap, c: StoryMap)
    requires
        story_like(a, b),
        story_like(c, b),
    ensures
        story_like(a, c),
{
    assert forall|i: int| 0 <= i < a.links@.len() implies link_like(
        #[trigger] a.links@[i],
        c.links@[i],
    ) by {
        assert(link_like(a.links@[i], b.links@[i]));
        assert(link_like(c.links@[i], b.links@[i]));
        let al = a.links@[i];
        let bl = b.links@[i];
        let cl = c.links@[i];
        assert forall|j: int| 0 <= j < al.choices@.len() implies choice_like(
            #[trigger] al.choices@[j],
            cl.choices@[j],
        ) by {
            assert(choice_like(al.choices@[j], bl.choices@[j]));
            assert(choice_like(cl.choices@[j], bl.choices@[j]));
            assert forall|k: int| 0 <= k < al.choices@[j].options@.len() implies pair_like(
                #[trigger] al.choices@[j].options@[k],
                cl.choices@[j].options@[k],
            ) by {
                assert(pair_like(al.choices@[j].options@[k], bl.choices@[j].options@[k]));
                assert(pair_like(cl.choices@[j].options@[k], bl.choices@[j].options@[k]));
            }
        }
    }
}

/// Whether some link of `links` carries the id `id`.
pub open spec fn has_link_id(links: Seq<Link>, id: Seq<char>) -> bool {
    exists|i: int| 0 <= i < links.len() && links[i].id@ == id
}

/// Whether `i` is the position of the first link that carries the id `id`.
pub open spec fn is_first_match(links: Seq<Link>, id: Seq<char>, i: int) -> bool {
    &&& 0 <= i < links.len()
    &&& links[i].id@ == id
    &&& forall|j: int| 0 <= j < i ==> links[j].id@ != id
}

/// Returns the position of the first link whose id equals the queried id,
/// or `None` when no link carries it.
pub fn find_link(story_links: &Vec<Link>, game_state_link_id: &String) -> (r: Option<usize>)
    ensures
        match r {
            Some(i) => is_first_match(story_links@, game_state_link_id@, i as int),
            None => !has_link_id(story_links@, game_state_link_id@),
        },
{
    let n = story_links.len();
    for i in 0..n
        invariant
            n == story_links@.len(),
            forall|j: int| 0 <= j < i ==> story_links@[j].id@ != game_state_link_id@,
    {
        if story_links[i].id.eq(game_state_link_id) {
            return Some(i);
        }
    }
    None
}

/// Returns the path of a story file inside the story directory.
pub fn get_story_file_path(story_file_name: &String) -> (r: String)
    ensures
        r@ == "story_maps/"@ + story_file_name@,
{
    let mut file_path = String::from_str("story_maps/");
    file_path.append(story_file_name.as_str());
    file_path
}

} // verus!
