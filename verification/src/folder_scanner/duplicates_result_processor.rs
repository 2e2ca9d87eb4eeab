//! The last stage: the groups of duplicates are collected from the result
//! stream until its sentinel, each group is ordered so that the member with
//! the shortest path comes first, and the chosen action is laid out: which
//! file stays, which files move, and under which names.

use vstd::prelude::*;
use crate::Action;
use vstd::utf8::encode_utf8;
use super::duplicates_group::{DuplicatesGroup, HashedContent, HashedSample};
use super::encoding::{base64, base64_text, encodable_length};
use super::keep_policy::{
    is_place_of, is_stable_ascending_order, keep_order, lemma_insert_at_place, lemma_keep_order,
};

verus! {

/// Where the duplicates are moved to.
#[derive(Debug)]
pub struct MoveParams {
    destination_folder: String,
}

impl Clone for MoveParams {
    fn clone(&self) -> (copy: Self)
        ensures
            copy.folder() == self.folder(),
    {
        MoveParams { destination_folder: self.destination_folder.clone() }
    }
}

impl MoveParams {
    /// The folder that the duplicates are moved to.
    pub closed spec fn folder(&self) -> Seq<char> {
        self.destination_folder@
    }

    /// The folder that the duplicates are moved to.
    pub fn destination_folder(&self) -> (folder: &String)
        ensures
            folder@ == self.folder(),
    {
        &self.destination_folder
    }
}

/// An action together with what it needs to be carried out.
#[derive(Debug)]
pub enum ActionInput {
    Move(MoveParams),
    Report,
}

/// The mathematical content of an [`ActionInput`].
pub enum ActionChoice {
    Move { destination_folder: Seq<char> },
    Report,
}

impl View for ActionInput {
    type V = ActionChoice;

    open spec fn view(&self) -> ActionChoice {
        match self {
            ActionInput::Move(params) => ActionChoice::Move { destination_folder: params.folder() },
            ActionInput::Report => ActionChoice::Report,
        }
    }
}

/// Why an action cannot be carried out.
#[derive(Clone, Copy, Debug, PartialEq, Eq, Structural)]
pub enum ActionError {
    /// The action is `Delete`, which is not supported.
    UnsupportedAction,
    /// The action is `Move` and no destination folder was given.
    MissingDestination,
}

/// What becomes of an action and the folder given with it: `Delete` is
/// refused, `Move` needs its folder, and `Report` takes none into account.
pub open spec fn chosen(action: Action, folder: Option<Seq<char>>) -> Result<
    ActionChoice,
    ActionError,
> {
    match action {
        Action::Delete => Err(ActionError::UnsupportedAction),
        Action::Report => Ok(ActionChoice::Report),
        Action::Move => match folder {
            Some(destination_folder) => Ok(ActionChoice::Move { destination_folder }),
            None => Err(ActionError::MissingDestination),
        },
    }
}

impl ActionInput {
    /// The input for an action that can be carried out. `Delete` cannot, and
    /// neither can `Move` without a folder: see [`ActionInput::select`] for an
    /// action that was not looked at yet.
    pub fn from(action: Action, folder: Option<String>) -> (input: Self)
        requires
            chosen(action, folder.deep_view()) is Ok,
        ensures
            Ok::<ActionChoice, ActionError>(input@) == chosen(action, folder.deep_view()),
    {
        match action {
            Action::Move => ActionInput::Move(MoveParams { destination_folder: folder.unwrap() }),
            Action::Report => ActionInput::Report,
            Action::Delete => vstd::pervasive::unreached(),
        }
    }

    /// The input for an action, or the reason why it cannot be carried out.
    pub fn select(action: Action, folder: Option<String>) -> (input: Result<Self, ActionError>)
        ensures
            match input {
                Ok(selected) => chosen(action, folder.deep_view()) == Ok::<
                    ActionChoice,
                    ActionError,
                >(selected@),
                Err(error) => chosen(action, folder.deep_view()) == Err::<
                    ActionChoice,
                    ActionError,
                >(error),
            },
    {
        match action {
            Action::Delete => Err(ActionError::UnsupportedAction),
            Action::Report => Ok(ActionInput::Report),
            Action::Move => {
                if folder.is_some() {
                    Ok(ActionInput::from(action, folder))
                } else {
                    Err(ActionError::MissingDestination)
                }
            },
        }
    }
}

impl DeepView for ActionInput {
    type V = ActionChoice;

    open spec fn deep_view(&self) -> ActionChoice {
        self@
    }
}

/// The weight by which the members of a group are ordered: the number of
/// characters of their path.
pub open spec fn path_weight() -> spec_fn(HashedContent) -> nat {
    |member: HashedContent| member.sample.record.path.len()
}

/// Orders a group ascending by the length of the paths, in characters.
/// Members whose paths are equally long keep their order. The first member of
/// the result is the one to keep in place.
pub fn reorder_group(group: Vec<HashedSample>) -> (ordered: Vec<HashedSample>)
    ensures
        ordered.deep_view() == keep_order(group.deep_view(), path_weight()),
        is_stable_ascending_order(ordered.deep_view(), group.deep_view(), path_weight()),
        ordered.deep_view().to_multiset() == group.deep_view().to_multiset(),
        ordered.len() == group.len(),
{
    let ghost all = group.deep_view();
    let mut ordered: Vec<HashedSample> = Vec::new();
    assert(ordered.deep_view() =~= keep_order(all.take(0), path_weight()));
    for member in it: group
        invariant
            all == group.deep_view(),
            it.seq() == group@,
            ordered.deep_view() == keep_order(all.take(it.index()), path_weight()),
    {
        let ghost done = it.index();
        let ghost before = ordered.deep_view();
        let ghost content = member@;
        let length = member.sample.file_info.file.as_str().unicode_len();
        let mut place: usize = ordered.len();
        while place > 0 && ordered[place - 1].sample.file_info.file.as_str().unicode_len() > length
            invariant
                place <= ordered.len(),
                before == ordered.deep_view(),
                length == path_weight()(content),
                forall|i: int|
                    place <= i < before.len() ==> path_weight()(#[trigger] before[i]) > path_weight()(
                        content,
                    ),
            decreases place,
        {
            assert(path_weight()(before[place - 1]) > path_weight()(content));
            place -= 1;
        }
        proof {
            if place > 0 {
                assert(path_weight()(before[place - 1]) <= path_weight()(content));
            }
            assert(is_place_of(before, content, path_weight(), place as int));
            lemma_insert_at_place(before, content, path_weight(), place as int);
            assert(all.take(done + 1).drop_last() =~= all.take(done));
            assert(all.take(done + 1).last() == content);
        }
        ordered.insert(place, member);
        assert(ordered.deep_view() =~= before.insert(place as int, content));
    }
    proof {
        assert(all.take(all.len() as int) =~= all);
        lemma_keep_order(all, path_weight());
    }
    ordered
}

/// One file to move: where it is, and the name that it gets in the
/// destination folder.
#[derive(Debug)]
pub struct FileMove {
    pub source: String,
    pub target_name: String,
}

/// The mathematical content of a [`FileMove`].
pub struct PlannedMove {
    pub source: Seq<char>,
    pub target_name: Seq<char>,
}

impl View for FileMove {
    type V = PlannedMove;

    open spec fn view(&self) -> PlannedMove {
        PlannedMove { source: self.source@, target_name: self.target_name@ }
    }
}

impl DeepView for FileMove {
    type V = PlannedMove;

    open spec fn deep_view(&self) -> PlannedMove {
        self@
    }
}

/// The name under which the file at `path` is put into the destination
/// folder: the base64 text of the path, so that no two files get one name.
pub open spec fn target_name(path: Seq<char>) -> Seq<char> {
    base64_text(encode_utf8(path))
}

/// The move of one member of a group.
pub open spec fn move_of(member: HashedContent) -> PlannedMove {
    PlannedMove {
        source: member.sample.record.path,
        target_name: target_name(member.sample.record.path),
    }
}

/// The members of an ordered group behind the first.
pub open spec fn behind_first<T>(ordered: Seq<T>) -> Seq<T> {
    if ordered.len() == 0 {
        ordered
    } else {
        ordered.skip(1)
    }
}

/// The moves for one group: every member but the one that is kept, in the
/// order of the group.
pub open spec fn group_moves(group: Seq<HashedContent>) -> Seq<PlannedMove> {
    behind_first(keep_order(group, path_weight())).map_values(
        |member: HashedContent| move_of(member),
    )
}

/// The moves for all the groups, group after group.
pub open spec fn planned_moves(groups: Seq<Seq<HashedContent>>) -> Seq<PlannedMove> {
    groups.map_values(|group: Seq<HashedContent>| group_moves(group)).flatten()
}

/// Whether the name for every path in the groups can be computed: the encoder
/// takes no path of more than `usize::MAX / 512` bytes.
pub open spec fn has_encodable_paths(groups: Seq<Seq<HashedContent>>) -> bool {
    forall|g: int, i: int|
        0 <= g < groups.len() && 0 <= i < groups[g].len() ==> encodable_length(
            encode_utf8((#[trigger] groups[g][i]).sample.record.path).len(),
        )
}

/// No two files are moved to one name: moves to the same name are moves of
/// the same path.
pub open spec fn has_no_collision(moves: Seq<PlannedMove>) -> bool {
    forall|i: int, j: int|
        0 <= i < moves.len() && 0 <= j < moves.len() && (#[trigger] moves[i]).target_name
            == (#[trigger] moves[j]).target_name ==> moves[i].source == moves[j].source
}

/// Every move goes to the name of its path, and no other path that can be
/// encoded has that name.
spec fn names_tell_paths_apart(moves: Seq<PlannedMove>) -> bool {
    &&& forall|k: int|
        0 <= k < moves.len() ==> (#[trigger] moves[k]).target_name == target_name(moves[k].source)
            && encodable_length(encode_utf8(moves[k].source).len())
    &&& forall|k: int, path: Seq<char>|
        0 <= k < moves.len() && encodable_length(encode_utf8(path).len()) && #[trigger] target_name(
            path,
        ) == (#[trigger] moves[k]).target_name ==> path == moves[k].source
}

/// Lays out the moves: in each group the member with the shortest path stays,
/// and every other member moves to the name that its path encodes to. Files
/// at different paths never get the same name.
pub fn move_duplicates(duplicates: &Vec<DuplicatesGroup>) -> (moves: Vec<FileMove>)
    requires
        has_encodable_paths(duplicates.deep_view()),
    ensures
        moves.deep_view() == planned_moves(duplicates.deep_view()),
        has_no_collision(moves.deep_view()),
{
    let ghost groups = duplicates.deep_view();
    let ghost per_group = |group: Seq<HashedContent>| group_moves(group);
    let mut moves: Vec<FileMove> = Vec::new();
    let mut g: usize = 0;
    assert(groups.take(0).map_values(per_group) =~= Seq::empty());
    while g < duplicates.len()
        invariant
            g <= duplicates.len(),
            groups == duplicates.deep_view(),
            has_encodable_paths(groups),
            per_group == |group: Seq<HashedContent>| group_moves(group),
            moves.deep_view() == groups.take(g as int).map_values(per_group).flatten(),
            names_tell_paths_apart(moves.deep_view()),
        decreases duplicates.len() - g,
    {
        let ghost before = moves.deep_view();
        let ordered = reorder_group(duplicates[g].item.clone());
        let ghost members = ordered.deep_view();
        assert(members == keep_order(groups[g as int], path_weight()));
        proof {
            broadcast use vstd::seq_lib::group_to_multiset_ensures;

            assert forall|i: int| 0 <= i < members.len() implies encodable_length(
                encode_utf8((#[trigger] members[i]).sample.record.path).len(),
            ) by {
                assert(members.to_multiset().contains(members[i]));
                assert(groups[g as int].to_multiset().contains(members[i]));
                let k = choose|k: int|
                    0 <= k < groups[g as int].len() && groups[g as int][k] == members[i];
                assert(encodable_length(encode_utf8(groups[g as int][k].sample.record.path).len()));
            }
        }
        let mut i: usize = 1;
        while i < ordered.len()
            invariant
                1 <= i,
                members == ordered.deep_view(),
                i <= ordered.len() || i == 1,
                forall|k: int|
                    0 <= k < members.len() ==> encodable_length(
                        encode_utf8((#[trigger] members[k]).sample.record.path).len(),
                    ),
                moves.deep_view() =~= before + Seq::new(
                    (i - 1) as nat,
                    |k: int| move_of(members[k + 1]),
                ),
                names_tell_paths_apart(moves.deep_view()),
            decreases ordered.len() - i,
        {
            let ghost laid_out = moves.deep_view();
            let path = &ordered[i].sample.file_info.file;
            assert(path@ == members[i as int].sample.record.path);
            let name = base64(path.as_str().as_bytes());
            proof {
                assert forall|other: Seq<char>|
                    encodable_length(encode_utf8(other).len()) && #[trigger] target_name(other)
                        == name@ implies other == path@ by {
                    assert(base64_text(encode_utf8(other)) == name@);
                    vstd::utf8::encode_utf8_decode_utf8(other);
                    vstd::utf8::encode_utf8_decode_utf8(path@);
                }
            }
            moves.push(FileMove { source: path.clone(), target_name: name });
            assert(moves.deep_view() =~= laid_out.push(move_of(members[i as int])));
            assert(names_tell_paths_apart(moves.deep_view())) by {
                let now = moves.deep_view();
                assert forall|k: int| 0 <= k < now.len() implies (#[trigger] now[k]).target_name
                    == target_name(now[k].source) && encodable_length(
                    encode_utf8(now[k].source).len(),
                ) by {
                    if k < laid_out.len() {
                        assert(now[k] == laid_out[k]);
                    }
                }
                assert forall|k: int, other: Seq<char>|
                    0 <= k < now.len() && encodable_length(encode_utf8(other).len())
                        && #[trigger] target_name(other) == (
                    #[trigger] now[k]).target_name implies other == now[k].source by {
                    if k < laid_out.len() {
                        assert(now[k] == laid_out[k]);
                    }
                }
            }
            i += 1;
        }
        proof {
            let of_group = group_moves(groups[g as int]);
            assert(of_group =~= Seq::new(
                (if members.len() == 0 {
                    0
                } else {
                    members.len() - 1
                }) as nat,
                |k: int| move_of(members[k + 1]),
            ));
            let done = groups.take(g as int).map_values(per_group);
            assert(moves.deep_view() =~= before + of_group);
            assert(groups.take(g + 1).map_values(per_group) =~= done.push(of_group));
            done.lemma_flatten_push(of_group);
            assert(done.push(of_group).flatten() =~= done.flatten() + of_group);
        }
        g += 1;
    }
    assert(groups.take(groups.len() as int) =~= groups);
    proof {
        let all = moves.deep_view();
        assert forall|i: int, j: int|
            0 <= i < all.len() && 0 <= j < all.len() && (#[trigger] all[i]).target_name == (
            #[trigger] all[j]).target_name implies all[i].source == all[j].source by {
            assert(target_name(all[j].source) == all[i].target_name);
        }
    }
    moves
}

/// The moves of a group are those of the members behind the first of the
/// ordered group, in their order: there is one move fewer than the group has
/// members.
pub proof fn lemma_moves_of_group(group: Seq<HashedContent>)
    ensures
        group_moves(group).len() == if group.len() == 0 {
            0
        } else {
            group.len() - 1
        },
        forall|k: int|
            0 <= k < group_moves(group).len() ==> #[trigger] group_moves(group)[k] == move_of(
                keep_order(group, path_weight())[k + 1],
            ),
{
    lemma_keep_order(group, path_weight());
}

/// The moves for the groups and one more group are the moves for the groups,
/// and then those of that group.
pub proof fn lemma_moves_group_after_group(
    groups: Seq<Seq<HashedContent>>,
    group: Seq<HashedContent>,
)
    ensures
        planned_moves(groups.push(group)) == planned_moves(groups) + group_moves(group),
        planned_moves(Seq::empty()) == Seq::<PlannedMove>::empty(),
        planned_moves(seq![group]) == group_moves(group),
{
    let per_group = |group: Seq<HashedContent>| group_moves(group);
    let done = groups.map_values(per_group);
    assert(groups.push(group).map_values(per_group) =~= done.push(group_moves(group)));
    done.lemma_flatten_push(group_moves(group));
    let none = Seq::<Seq<HashedContent>>::empty();
    assert(none.map_values(per_group) =~= Seq::<Seq<PlannedMove>>::empty());
    assert(planned_moves(none) =~= Seq::<PlannedMove>::empty());
    assert(seq![group] =~= none.push(group));
    assert(none.push(group).map_values(per_group) =~= none.map_values(per_group).push(
        group_moves(group),
    ));
    none.map_values(per_group).lemma_flatten_push(group_moves(group));
    assert(planned_moves(seq![group]) =~= group_moves(group));
}

/// No two members of the group are at one path.
pub open spec fn has_distinct_paths(group: Seq<HashedContent>) -> bool {
    forall|i: int, j: int|
        0 <= i < j < group.len() ==> (#[trigger] group[i]).sample.record.path != (
        #[trigger] group[j]).sample.record.path
}

/// The file to keep is never moved: in a group whose members are at different
/// paths, the path of the first member of the ordered group is the source of
/// none of the moves of the group.
pub proof fn lemma_kept_is_not_moved(group: Seq<HashedContent>)
    requires
        group.len() > 0,
        has_distinct_paths(group),
    ensures
        forall|k: int|
            0 <= k < group_moves(group).len() ==> (#[trigger] group_moves(group)[k]).source
                != keep_order(group, path_weight())[0].sample.record.path,
{
    broadcast use vstd::seq_lib::group_to_multiset_ensures;

    let ordered = keep_order(group, path_weight());
    lemma_keep_order(group, path_weight());
    lemma_moves_of_group(group);
    assert(group.no_duplicates()) by {
        assert forall|i: int, j: int| 0 <= i < group.len() && 0 <= j < group.len() && i
            != j implies group[i] != group[j] by {
            if i < j {
                assert(group[i].sample.record.path != group[j].sample.record.path);
            } else {
                assert(group[j].sample.record.path != group[i].sample.record.path);
            }
        }
    }
    group.lemma_multiset_has_no_duplicates();
    ordered.lemma_multiset_has_no_duplicates_conv();
    assert forall|k: int| 0 <= k < group_moves(group).len() implies (
    #[trigger] group_moves(group)[k]).source != ordered[0].sample.record.path by {
        let kept = ordered[0];
        let moved = ordered[k + 1];
        assert(kept != moved);
        assert(group.to_multiset().contains(kept));
        assert(group.to_multiset().contains(moved));
        let a = choose|a: int| 0 <= a < group.len() && group[a] == kept;
        let b = choose|b: int| 0 <= b < group.len() && group[b] == moved;
        if a < b {
            assert(group[a].sample.record.path != group[b].sample.record.path);
        } else if b < a {
            assert(group[b].sample.record.path != group[a].sample.record.path);
        }
    }
}

/// What is said of one group: the file that stays and the files that go.
#[derive(Debug)]
pub struct GroupReport {
    pub keep: String,
    pub to_move: Vec<String>,
}

/// The mathematical content of a [`GroupReport`].
pub struct GroupSummary {
    pub keep: Seq<char>,
    pub to_move: Seq<Seq<char>>,
}

impl View for GroupReport {
    type V = GroupSummary;

    open spec fn view(&self) -> GroupSummary {
        GroupSummary { keep: self.keep@, to_move: self.to_move.deep_view() }
    }
}

impl DeepView for GroupReport {
    type V = GroupSummary;

    open spec fn deep_view(&self) -> GroupSummary {
        self@
    }
}

/// The summary of one group that has a member: the path of the member with the
/// shortest path, and the paths of the others in the order of the group.
pub open spec fn summary_of(group: Seq<HashedContent>) -> GroupSummary {
    let ordered = keep_order(group, path_weight());
    GroupSummary {
        keep: ordered[0].sample.record.path,
        to_move: behind_first(ordered).map_values(
            |member: HashedContent| member.sample.record.path,
        ),
    }
}

/// Whether every group has a member.
pub open spec fn has_no_empty_group(groups: Seq<Seq<HashedContent>>) -> bool {
    forall|g: int| 0 <= g < groups.len() ==> (#[trigger] groups[g]).len() > 0
}

/// Says of each group which file stays and which files would move. Nothing is
/// changed. A group of duplicates has two members or more; one without a
/// member has no file to keep and is not taken.
pub fn report_duplicates(duplicates: &Vec<DuplicatesGroup>) -> (reports: Vec<GroupReport>)
    requires
        has_no_empty_group(duplicates.deep_view()),
    ensures
        reports.deep_view() == duplicates.deep_view().map_values(
            |group: Seq<HashedContent>| summary_of(group),
        ),
{
    let ghost groups = duplicates.deep_view();
    let mut reports: Vec<GroupReport> = Vec::new();
    let mut g: usize = 0;
    while g < duplicates.len()
        invariant
            g <= duplicates.len(),
            groups == duplicates.deep_view(),
            has_no_empty_group(groups),
            reports.len() == g,
            forall|k: int| 0 <= k < g ==> (#[trigger] reports.deep_view()[k]) == summary_of(groups[k]),
        decreases duplicates.len() - g,
    {
        let ghost before = reports.deep_view();
        let ordered = reorder_group(duplicates[g].item.clone());
        let ghost members = ordered.deep_view();
        assert(groups[g as int].len() > 0);
        let keep = ordered[0].sample.file_info.file.clone();
        let mut to_move: Vec<String> = Vec::new();
        let mut i: usize = 1;
        while i < ordered.len()
            invariant
                1 <= i <= ordered.len(),
                members == ordered.deep_view(),
                to_move.deep_view() =~= Seq::new(
                    (i - 1) as nat,
                    |k: int| members[k + 1].sample.record.path,
                ),
            decreases ordered.len() - i,
        {
            let ghost listed = to_move.deep_view();
            let path = ordered[i].sample.file_info.file.clone();
            assert(path@ == members[i as int].sample.record.path);
            to_move.push(path);
            assert(to_move.deep_view() =~= listed.push(members[i as int].sample.record.path));
            i += 1;
        }
        assert(to_move.deep_view() =~= summary_of(groups[g as int]).to_move);
        assert(keep@ == summary_of(groups[g as int]).keep);
        reports.push(GroupReport { keep, to_move });
        assert(reports.deep_view() =~= before.push(summary_of(groups[g as int])));
        g += 1;
    }
    reports
}

/// The groups of duplicates of a run, and the actions on them.
pub struct DeduplicatorResultProcessor {
    pub duplicates: Vec<DuplicatesGroup>,
}

/// What an action comes to: nothing, files to move into a folder, or a report.
#[derive(Debug)]
pub enum ActionPlan {
    /// There are no duplicates, so there is nothing to do.
    Nothing,
    /// The files to move into `destination_folder`.
    Move { destination_folder: String, moves: Vec<FileMove> },
    /// What to say of each group.
    Report { groups: Vec<GroupReport> },
}

/// The mathematical content of an [`ActionPlan`].
pub enum PlannedAction {
    Nothing,
    Move { destination_folder: Seq<char>, moves: Seq<PlannedMove> },
    Report { groups: Seq<GroupSummary> },
}

impl View for ActionPlan {
    type V = PlannedAction;

    open spec fn view(&self) -> PlannedAction {
        match self {
            ActionPlan::Nothing => PlannedAction::Nothing,
            ActionPlan::Move { destination_folder, moves } => PlannedAction::Move {
                destination_folder: destination_folder@,
                moves: moves.deep_view(),
            },
            ActionPlan::Report { groups } => PlannedAction::Report { groups: groups.deep_view() },
        }
    }
}

/// What `action` comes to on `groups`.
pub open spec fn plan_of(groups: Seq<Seq<HashedContent>>, action: ActionChoice) -> PlannedAction {
    if groups.len() == 0 {
        PlannedAction::Nothing
    } else {
        match action {
            ActionChoice::Move { destination_folder } => PlannedAction::Move {
                destination_folder,
                moves: planned_moves(groups),
            },
            ActionChoice::Report => PlannedAction::Report {
                groups: groups.map_values(|group: Seq<HashedContent>| summary_of(group)),
            },
        }
    }
}

/// Whether `action` can be laid out on `groups`: a move needs paths that the
/// encoder takes, a report needs a file to keep in every group.
pub open spec fn can_apply(groups: Seq<Seq<HashedContent>>, action: ActionChoice) -> bool {
    match action {
        ActionChoice::Move { .. } => has_encodable_paths(groups),
        ActionChoice::Report => has_no_empty_group(groups),
    }
}

impl DeduplicatorResultProcessor {
    /// A processor for the groups that were collected.
    pub fn new(duplicates: Vec<DuplicatesGroup>) -> (processor: Self)
        ensures
            processor.duplicates == duplicates,
    {
        DeduplicatorResultProcessor { duplicates }
    }

    /// Tests whether `action` can be laid out on the groups.
    pub fn is_applicable(&self, action: &ActionInput) -> (applicable: bool)
        ensures
            applicable == can_apply(self.duplicates.deep_view(), action@),
    {
        let ghost groups = self.duplicates.deep_view();
        let mut g: usize = 0;
        while g < self.duplicates.len()
            invariant
                g <= self.duplicates.len(),
                groups == self.duplicates.deep_view(),
                can_apply(groups.take(g as int), action@),
            decreases self.duplicates.len() - g,
        {
            let group = &self.duplicates[g].item;
            let ghost members = groups[g as int];
            match action {
                ActionInput::Report => {
                    if group.len() == 0 {
                        return false;
                    }
                },
                ActionInput::Move(_) => {
                    let mut i: usize = 0;
                    while i < group.len()
                        invariant
                            i <= group.len(),
                            g < groups.len(),
                            groups == self.duplicates.deep_view(),
                            action@ is Move,
                            members == group.deep_view(),
                            members == groups[g as int],
                            forall|k: int|
                                0 <= k < i ==> encodable_length(
                                    encode_utf8((#[trigger] members[k]).sample.record.path).len(),
                                ),
                        decreases group.len() - i,
                    {
                        if group[i].sample.file_info.file.as_str().as_bytes().len() > usize::MAX
                            / 512 {
                            assert(!encodable_length(
                                encode_utf8(groups[g as int][i as int].sample.record.path).len(),
                            ));
                            return false;
                        }
                        i += 1;
                    }
                },
            }
            proof {
                let next = groups.take(g + 1);
                assert forall|k: int| 0 <= k < next.len() implies (#[trigger] next[k])
                    == groups[k] by {}
                if action@ is Report {
                    assert forall|k: int| 0 <= k < next.len() implies (#[trigger] next[k]).len()
                        > 0 by {
                        if k < g {
                            assert(groups.take(g as int)[k].len() > 0);
                        }
                    }
                } else {
                    assert forall|k: int, i: int|
                        0 <= k < next.len() && 0 <= i < next[k].len() implies encodable_length(
                        encode_utf8((#[trigger] next[k][i]).sample.record.path).len(),
                    ) by {
                        if k < g {
                            assert(encodable_length(
                                encode_utf8(groups.take(g as int)[k][i].sample.record.path).len(),
                            ));
                        }
                    }
                }
            }
            g += 1;
        }
        assert(groups.take(groups.len() as int) =~= groups);
        true
    }

    /// Lays out `action` on the groups. With no group there is nothing to do,
    /// whatever the action.
    pub fn apply(&self, action: ActionInput) -> (plan: ActionPlan)
        requires
            can_apply(self.duplicates.deep_view(), action@),
        ensures
            plan@ == plan_of(self.duplicates.deep_view(), action@),
            plan@ matches PlannedAction::Move { moves, .. } ==> has_no_collision(moves),
    {
        if self.duplicates.len() == 0 {
            return ActionPlan::Nothing;
        }
        match action {
            ActionInput::Move(params) => ActionPlan::Move {
                destination_folder: params.destination_folder().clone(),
                moves: move_duplicates(&self.duplicates),
            },
            ActionInput::Report => ActionPlan::Report { groups: report_duplicates(&self.duplicates) },
        }
    }
}

/// What one receive on the result stream gave.
#[derive(Debug)]
pub enum Received {
    /// A group of duplicates that a worker published.
    Group(DuplicatesGroup),
    /// The sentinel: every group was published, the stream is complete.
    Sentinel,
    /// The stream broke off: nobody is left who could send.
    Closed,
}

/// The mathematical content of a [`Received`].
pub enum ReceivedContent {
    Group(Seq<HashedContent>),
    Sentinel,
    Closed,
}

impl View for Received {
    type V = ReceivedContent;

    open spec fn view(&self) -> ReceivedContent {
        match self {
            Received::Group(group) => ReceivedContent::Group(group@),
            Received::Sentinel => ReceivedContent::Sentinel,
            Received::Closed => ReceivedContent::Closed,
        }
    }
}

impl DeepView for Received {
    type V = ReceivedContent;

    open spec fn deep_view(&self) -> ReceivedContent {
        self@
    }
}

/// The groups collected so far, after one more receive: a group is added, the
/// sentinel leaves them as they are, and a stream that broke off leaves none,
/// since what was collected is not known to be complete.
pub open spec fn collected_after(
    collected: Seq<Seq<HashedContent>>,
    received: ReceivedContent,
) -> Seq<Seq<HashedContent>> {
    match received {
        ReceivedContent::Group(group) => collected.push(group),
        ReceivedContent::Sentinel => collected,
        ReceivedContent::Closed => Seq::empty(),
    }
}

/// `end` is where listening to `stream` stops: at the first item that is no
/// group, or behind the last item where all are groups.
pub open spec fn is_end_of_listening(stream: Seq<ReceivedContent>, end: int) -> bool {
    &&& 0 <= end <= stream.len()
    &&& forall|i: int| 0 <= i < end ==> #[trigger] stream[i] is Group
    &&& end < stream.len() ==> !(stream[end] is Group)
}

/// The groups that stand in `stream` before `end`.
pub open spec fn groups_before(stream: Seq<ReceivedContent>, end: int) -> Seq<Seq<HashedContent>> {
    Seq::new(end as nat, |i: int| stream[i]->Group_0)
}

/// What listening to `stream` gives, where it stops at `end`: the groups
/// before the sentinel. Where the stream has no sentinel there, it broke off,
/// and the groups are discarded.
pub open spec fn listened(stream: Seq<ReceivedContent>, end: int) -> Seq<Seq<HashedContent>> {
    if end < stream.len() && stream[end] is Sentinel {
        groups_before(stream, end)
    } else {
        Seq::empty()
    }
}

/// Takes one receive into account, and says whether to go on receiving.
pub fn listen_step(duplicates: &mut Vec<DuplicatesGroup>, received: Received) -> (more: bool)
    ensures
        final(duplicates).deep_view() == collected_after(old(duplicates).deep_view(), received@),
        more == (received@ is Group),
{
    let ghost before = duplicates.deep_view();
    match received {
        Received::Group(group) => {
            let ghost content = group@;
            duplicates.push(group);
            assert(duplicates.deep_view() =~= before.push(content));
            true
        },
        Received::Sentinel => false,
        Received::Closed => {
            duplicates.clear();
            assert(duplicates.deep_view() =~= Seq::empty());
            false
        },
    }
}

/// Collects the groups of a whole stream: all the groups up to the sentinel,
/// in the order in which they arrived. What stands behind the sentinel is not
/// looked at. A stream that ends without a sentinel broke off, and gives no
/// groups.
pub fn listen(stream: Vec<Received>) -> (duplicates: Vec<DuplicatesGroup>)
    ensures
        exists|end: int|
            is_end_of_listening(stream.deep_view(), end) && duplicates.deep_view() == listened(
                stream.deep_view(),
                end,
            ),
{
    let ghost all = stream.deep_view();
    let mut duplicates: Vec<DuplicatesGroup> = Vec::new();
    let mut ended: bool = false;
    let ghost mut end: int = 0;
    assert(duplicates.deep_view() =~= groups_before(all, 0));
    for received in it: stream
        invariant
            all == stream.deep_view(),
            it.seq() == stream@,
            !ended ==> end == it.index() && duplicates.deep_view() == groups_before(all, end),
            !ended ==> forall|i: int| 0 <= i < end ==> #[trigger] all[i] is Group,
            ended ==> is_end_of_listening(all, end) && end < all.len() && duplicates.deep_view()
                == listened(all, end),
    {
        if !ended {
            let ghost before = duplicates.deep_view();
            assert(all[end] == received@);
            let more = listen_step(&mut duplicates, received);
            if more {
                proof {
                    assert(duplicates.deep_view() =~= groups_before(all, end + 1));
                    end = end + 1;
                }
            } else {
                ended = true;
            }
        }
    }
    if !ended {
        duplicates.clear();
        assert(duplicates.deep_view() =~= Seq::empty());
        assert(is_end_of_listening(all, end));
    }
    duplicates
}

/// No group is lost and none comes late: where every group of `groups` was
/// sent and the sentinel after them, listening gives exactly `groups`,
/// whatever follows the sentinel.
pub proof fn lemma_sentinel_ends_stream(
    groups: Seq<Seq<HashedContent>>,
    rest: Seq<ReceivedContent>,
    end: int,
)
    requires
        is_end_of_listening(
            groups.map_values(|group: Seq<HashedContent>| ReceivedContent::Group(group)).push(
                ReceivedContent::Sentinel,
            ) + rest,
            end,
        ),
    ensures
        end == groups.len(),
        listened(
            groups.map_values(|group: Seq<HashedContent>| ReceivedContent::Group(group)).push(
                ReceivedContent::Sentinel,
            ) + rest,
            end,
        ) == groups,
{
    let stream = groups.map_values(|group: Seq<HashedContent>| ReceivedContent::Group(group)).push(
        ReceivedContent::Sentinel,
    ) + rest;
    assert(stream[groups.len() as int] is Sentinel);
    if end < groups.len() {
        assert(stream[end] is Group);
    }
    if end > groups.len() {
        assert(stream[groups.len() as int] is Group);
    }
    assert(listened(stream, end) =~= groups);
}

} // verus!
