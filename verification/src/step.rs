//! The steps that a game offers, and finding one among them.

use crate::blessings::Blessing;
use crate::game::Game;
use crate::text::chars_of;
use vstd::prelude::*;

verus! {

/// A step, told apart from every other as far as the players look for it.
#[derive(Clone, Copy, PartialEq, Eq, Debug, Structural)]
pub enum StepKind {
    EndTurn,
    PlayCard { hand_index: usize, target: Option<usize> },
    UsePotion { potion_index: usize, target: Option<usize> },
    Continue,
    ChooseBlessing(Blessing),
    /// A step that no player looks for by what it holds.
    Other,
}

/// A step on offer, with the two texts that the game attaches to it.
#[derive(Debug)]
pub struct OfferedStep {
    pub kind: StepKind,
    /// The step written out for debugging: the name of its type and then its fields.
    pub debug: String,
    /// The step in words, for the one who picks.
    pub description: String,
}

/// Something that can be done in a game.
pub trait Step: Sized {
    /// The state that offered the step is over once the step is taken.
    spec fn pops(&self) -> bool;

    /// The step as it stands among others.
    spec fn as_kind(&self) -> StepKind;

    /// The step in words.
    spec fn words(&self, game: Game) -> Seq<char>;

    /// The step can be taken in `game`.
    spec fn can_run(&self, game: Game) -> bool;

    fn should_pop_state(&self) -> (r: bool)
        ensures
            r == self.pops(),
    ;

    fn run(&self, game: &mut Game)
        requires
            self.can_run(*old(game)),
    ;

    fn description(&self, game: &Game) -> (r: String)
        ensures
            r@ == self.words(*game),
    ;

    /// The step as it stands among others.
    fn boxed(&self) -> (r: StepKind)
        ensures
            r == self.as_kind(),
    ;
}

/// The first position at or after `from` at which `want` is offered, or the length.
pub open spec fn offer_from(steps: Seq<OfferedStep>, want: StepKind, from: int) -> int
    decreases steps.len() - from,
{
    if from < 0 || from >= steps.len() {
        steps.len() as int
    } else if steps[from].kind == want {
        from
    } else {
        offer_from(steps, want, from + 1)
    }
}

/// `want` is among the steps.
pub open spec fn offered(steps: Seq<OfferedStep>, want: StepKind) -> bool {
    exists|i: int| 0 <= i < steps.len() && #[trigger] steps[i].kind == want
}

/// Where `want` is offered from some position on, the first such offer is found.
pub proof fn the_first_offer_is_found(steps: Seq<OfferedStep>, want: StepKind, from: int)
    requires
        0 <= from <= steps.len(),
    ensures
        from <= offer_from(steps, want, from) <= steps.len(),
        offer_from(steps, want, from) < steps.len() ==> steps[offer_from(steps, want, from)].kind
            == want,
        forall|j: int|
            from <= j < offer_from(steps, want, from) ==> (#[trigger] steps[j]).kind != want,
    decreases steps.len() - from,
{
    if from < steps.len() && steps[from].kind != want {
        the_first_offer_is_found(steps, want, from + 1);
    }
}

/// The position of the first step that is `want`, where it is offered.
pub fn index_of(steps: &Vec<OfferedStep>, want: StepKind) -> (r: Option<usize>)
    ensures
        r is Some <==> offered(steps@, want),
        r matches Some(i) ==> {
            &&& i < steps@.len()
            &&& steps@[i as int].kind == want
            &&& i == offer_from(steps@, want, 0)
        },
        r is None ==> offer_from(steps@, want, 0) == steps@.len(),
{
    let mut i: usize = 0;
    while i < steps.len()
        invariant
            i <= steps@.len(),
            offer_from(steps@, want, 0) == offer_from(steps@, want, i as int),
            forall|j: int| 0 <= j < i ==> #[trigger] steps@[j].kind != want,
        decreases steps@.len() - i,
    {
        if steps[i].kind == want {
            return Some(i);
        }
        i = i + 1;
    }
    None
}

/// Where the leading name of a debug text ends: at a blank or at an opening brace or bracket.
pub open spec fn name_end(s: Seq<char>, from: int) -> int
    decreases s.len() - from,
{
    if from < 0 || from >= s.len() {
        s.len() as int
    } else if s[from] == ' ' || s[from] == '{' || s[from] == '(' {
        from
    } else {
        name_end(s, from + 1)
    }
}

/// The leading name of a debug text.
pub open spec fn leading_name(s: Seq<char>) -> Seq<char> {
    s.take(name_end(s, 0))
}

/// The step's type goes by `name`.
pub open spec fn is_named(step: OfferedStep, name: Seq<char>) -> bool {
    leading_name(step.debug@) == name
}

/// The character ends the leading name of a debug text.
pub open spec fn ends_name(c: char) -> bool {
    c == ' ' || c == '{' || c == '('
}

/// The name of a step's type is what the debug text begins with, whatever fields follow it.
pub proof fn the_name_ignores_the_fields(name: Seq<char>, fields: Seq<char>)
    requires
        forall|i: int| 0 <= i < name.len() ==> !ends_name(#[trigger] name[i]),
        fields.len() > 0 ==> ends_name(fields[0]),
    ensures
        leading_name(name + fields) == name,
{
    lemma_name_end(name, fields, 0);
    assert((name + fields).take(name.len() as int) =~= name);
}

proof fn lemma_name_end(name: Seq<char>, fields: Seq<char>, from: int)
    requires
        0 <= from <= name.len(),
        forall|i: int| 0 <= i < name.len() ==> !ends_name(#[trigger] name[i]),
        fields.len() > 0 ==> ends_name(fields[0]),
    ensures
        name_end(name + fields, from) == name.len(),
    decreases name.len() - from,
{
    if from < name.len() {
        assert((name + fields)[from] == name[from]);
        lemma_name_end(name, fields, from + 1);
    } else if fields.len() > 0 {
        assert((name + fields)[from] == fields[0]);
    }
}

/// The name of a step's type, read off its debug text.
pub fn step_name(step: &OfferedStep) -> (r: String)
    ensures
        r@ == leading_name(step.debug@),
{
    let v: Vec<char> = chars_of(step.debug.as_str());
    let mut i: usize = 0;
    while i < v.len() && v[i] != ' ' && v[i] != '{' && v[i] != '('
        invariant
            v@ == step.debug@,
            i <= v@.len(),
            name_end(v@, 0) == name_end(v@, i as int),
        decreases v@.len() - i,
    {
        i = i + 1;
    }
    let r: String = step.debug.as_str().substring_char(0, i).to_owned();
    assert(v@.subrange(0, i as int) =~= v@.take(i as int));
    r
}

/// Whether the step's type goes by `name`.
pub fn has_name(step: &OfferedStep, name: &str) -> (r: bool)
    ensures
        r == is_named(*step, name@),
{
    let found: String = step_name(step);
    let wanted: String = name.to_owned();
    found == wanted
}

/// The positions below `n` of the steps that go by `name`, in order.
pub open spec fn positions_named(steps: Seq<OfferedStep>, name: Seq<char>, n: int) -> Seq<usize>
    decreases n,
{
    if n <= 0 {
        Seq::empty()
    } else if is_named(steps[n - 1], name) {
        positions_named(steps, name, n - 1).push((n - 1) as usize)
    } else {
        positions_named(steps, name, n - 1)
    }
}

/// The positions of the steps that go by `name`, in order.
pub open spec fn all_named(steps: Seq<OfferedStep>, name: Seq<char>) -> Seq<usize> {
    positions_named(steps, name, steps.len() as int)
}

/// The first position at or after `from` of a step that goes by `name`, or the length.
pub open spec fn named_from(steps: Seq<OfferedStep>, name: Seq<char>, from: int) -> int
    decreases steps.len() - from,
{
    if from < 0 || from >= steps.len() {
        steps.len() as int
    } else if is_named(steps[from], name) {
        from
    } else {
        named_from(steps, name, from + 1)
    }
}

/// A step that goes by `name` is among the steps.
pub open spec fn any_named(steps: Seq<OfferedStep>, name: Seq<char>) -> bool {
    exists|i: int| 0 <= i < steps.len() && #[trigger] is_named(steps[i], name)
}

/// The first step that goes by `name`, where there is one.
pub open spec fn first_named(steps: Seq<OfferedStep>, name: Seq<char>) -> Option<usize> {
    let i = named_from(steps, name, 0);
    if i < steps.len() {
        Some(i as usize)
    } else {
        None
    }
}

/// A step that goes by `name` is found wherever there is one, and none before it goes by it.
pub proof fn first_named_is_named(steps: Seq<OfferedStep>, name: Seq<char>)
    requires
        steps.len() <= usize::MAX,
    ensures
        first_named(steps, name) is Some <==> any_named(steps, name),
        first_named(steps, name) matches Some(i) ==> {
            &&& i < steps.len()
            &&& is_named(steps[i as int], name)
            &&& forall|j: int| 0 <= j < i ==> !#[trigger] is_named(steps[j], name)
        },
{
    lemma_named_from(steps, name, 0);
}

proof fn lemma_named_from(steps: Seq<OfferedStep>, name: Seq<char>, from: int)
    requires
        0 <= from <= steps.len(),
    ensures
        from <= named_from(steps, name, from) <= steps.len(),
        named_from(steps, name, from) < steps.len() ==> is_named(
            steps[named_from(steps, name, from)],
            name,
        ),
        forall|j: int|
            from <= j < named_from(steps, name, from) ==> !#[trigger] is_named(steps[j], name),
    decreases steps.len() - from,
{
    if from < steps.len() && !is_named(steps[from], name) {
        lemma_named_from(steps, name, from + 1);
    }
}

/// The positions are those of the steps that go by `name`, each once and in order.
pub proof fn positions_named_are_exact(steps: Seq<OfferedStep>, name: Seq<char>, n: int)
    requires
        0 <= n <= steps.len(),
        n <= usize::MAX,
    ensures
        forall|k: int|
            0 <= k < positions_named(steps, name, n).len() ==> {
                &&& #[trigger] positions_named(steps, name, n)[k] < n
                &&& is_named(steps[positions_named(steps, name, n)[k] as int], name)
            },
        forall|k: int, l: int|
            0 <= k < l < positions_named(steps, name, n).len() ==> #[trigger] positions_named(
                steps,
                name,
                n,
            )[k] < #[trigger] positions_named(steps, name, n)[l],
        forall|i: int|
            0 <= i < n && #[trigger] is_named(steps[i], name) ==> positions_named(
                steps,
                name,
                n,
            ).contains(i as usize),
    decreases n,
{
    if n > 0 {
        positions_named_are_exact(steps, name, n - 1);
        let before = positions_named(steps, name, n - 1);
        let now = positions_named(steps, name, n);
        assert forall|i: int| 0 <= i < n && #[trigger] is_named(steps[i], name) implies now.contains(
            i as usize,
        ) by {
            if i == n - 1 {
                assert(now[now.len() - 1] == i as usize);
            } else {
                assert(before.contains(i as usize));
                let k = choose|k: int| 0 <= k < before.len() && before[k] == i as usize;
                assert(now[k] == i as usize);
            }
        }
    }
}

/// The positions of the steps that go by `name`, in order.
pub fn indices_of(steps: &Vec<OfferedStep>, name: &str) -> (r: Vec<usize>)
    ensures
        r@ == all_named(steps@, name@),
        forall|k: int| 0 <= k < r@.len() ==> #[trigger] r@[k] < steps@.len(),
        r@.len() > 0 <==> any_named(steps@, name@),
{
    let mut r: Vec<usize> = Vec::new();
    let mut i: usize = 0;
    while i < steps.len()
        invariant
            i <= steps@.len(),
            r@ == positions_named(steps@, name@, i as int),
        decreases steps@.len() - i,
    {
        if has_name(&steps[i], name) {
            r.push(i);
        }
        i = i + 1;
    }
    proof {
        positions_named_are_exact(steps@, name@, steps@.len() as int);
        if any_named(steps@, name@) {
            let j = choose|j: int| 0 <= j < steps@.len() && #[trigger] is_named(steps@[j], name@);
            assert(r@.contains(j as usize));
        }
        if r@.len() > 0 {
            assert(is_named(steps@[r@[0] as int], name@));
        }
    }
    r
}

/// The first step that goes by `name`, where there is one.
pub fn first_of(steps: &Vec<OfferedStep>, name: &str) -> (r: Option<usize>)
    ensures
        r == first_named(steps@, name@),
        r is Some <==> any_named(steps@, name@),
        r matches Some(i) ==> i < steps@.len() && is_named(steps@[i as int], name@),
{
    let mut i: usize = 0;
    while i < steps.len()
        invariant
            i <= steps@.len(),
            named_from(steps@, name@, 0) == named_from(steps@, name@, i as int),
            forall|j: int| 0 <= j < i ==> !#[trigger] is_named(steps@[j], name@),
        decreases steps@.len() - i,
    {
        if has_name(&steps[i], name) {
            return Some(i);
        }
        i = i + 1;
    }
    None
}

/// Whether a step that goes by `name` is among the steps.
pub fn has_kind(steps: &Vec<OfferedStep>, name: &str) -> (r: bool)
    ensures
        r == any_named(steps@, name@),
{
    first_of(steps, name).is_some()
}

/// The step that is taken where the player picks `wanted`.
pub open spec fn settled(steps: Seq<OfferedStep>, wanted: usize) -> int {
    if wanted < steps.len() {
        wanted as int
    } else {
        steps.len() - 1
    }
}

/// The step that is taken where the player picks `wanted`: the last one where there are not so
/// many.
pub fn settle(steps: &Vec<OfferedStep>, wanted: usize) -> (i: usize)
    requires
        steps@.len() > 0,
    ensures
        i == settled(steps@, wanted),
        i < steps@.len(),
{
    let last: usize = steps.len() - 1;
    if wanted < last {
        wanted
    } else {
        last
    }
}

/// The step that is taken is on offer: the one that is picked where there is such a one, and
/// otherwise the last.
pub proof fn what_is_taken_is_on_offer(steps: Vec<OfferedStep>, wanted: usize, i: usize)
    requires
        steps@.len() > 0,
        call_ensures(settle, (&steps, wanted), i),
    ensures
        i < steps@.len(),
        i <= wanted,
        i == wanted || i == steps@.len() - 1,
{
}

} // verus!
