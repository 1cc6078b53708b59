//! The tree of branches that a change travels through, and the mark on each
//! branch that says whether the change has arrived there.

use vstd::prelude::*;

use crate::branches::{branch_hydra_link, next_branches, RuleTable};
use crate::name_set::NameSet;
use crate::rules::{expand, resolve_link, settles, settles_within, Entry};
use crate::text::texts;

verus! {

/// Whether a change has arrived in a branch.
#[derive(Clone, Copy, Debug, PartialEq, Eq, Structural)]
pub enum Acceptance {
    /// The branch is known to hold the change.
    True,
    /// The branch is known not to hold it yet.
    False,
    /// Nothing is known either way.
    Unknown,
}

/// One branch of the tree with the branches that it feeds into.
#[derive(Debug)]
pub struct Tree {
    branch_name: String,
    accepted: Acceptance,
    hydra_link: Option<String>,
    children: Vec<Tree>,
}

/// A tree as plain values.
#[verifier::ext_equal]
pub struct Node {
    pub name: Seq<char>,
    pub acceptance: Acceptance,
    pub link: Option<Seq<char>>,
    pub children: Seq<Node>,
}

/// What the code host says of the change.
#[derive(Debug)]
pub enum PullRequestStatus {
    /// The change is still proposed.
    Open,
    /// The change was closed without being merged.
    Closed,
    /// The change was merged, by the given commit where the host names one.
    Merged { merge_commit_oid: Option<String> },
}

/// What the repository answered when asked which branches hold a commit.
#[derive(Debug)]
pub struct AncestryReport {
    /// The branches that were found to hold the commit.
    pub containing: Vec<String>,
    /// Whether the repository could be asked about every branch. Where it
    /// could not, a branch that is missing from `containing` may still hold
    /// the commit.
    pub complete: bool,
}

/// A tree that waits for its marks until the repository has said which of
/// its branches hold the merge commit.
pub struct Inquiry {
    /// The tree, not marked yet.
    pub tree: Tree,
    /// The names that were met while the tree was grown.
    pub found: NameSet,
    /// The branches to ask the repository about: every name in the tree.
    pub candidates: NameSet,
    /// The commit to ask for.
    pub commit: String,
    /// The branch that the change was merged into.
    pub base_branch: String,
}

/// How far the making of a tree has come.
pub enum Progress {
    /// The repository has to be asked before the tree can be marked.
    Asking(Inquiry),
    /// The tree is marked.
    Done(Tree),
}

/// The views of a list of trees.
spec fn nodes(trees: Seq<Tree>) -> Seq<Node>
    decreases trees, 0nat,
{
    Seq::new(
        trees.len(),
        |i: int|
            if 0 <= i < trees.len() {
                node_of(trees[i])
            } else {
                arbitrary()
            },
    )
}

/// The view of one tree.
spec fn node_of(tree: Tree) -> Node
    decreases tree, 1nat,
{
    Node {
        name: tree.branch_name@,
        acceptance: tree.accepted,
        link: match tree.hydra_link {
            Some(url) => Some(url@),
            None => None,
        },
        children: nodes(tree.children@),
    }
}

impl View for Tree {
    type V = Node;

    closed spec fn view(&self) -> Node {
        node_of(*self)
    }
}

/// `node` is the tree that the tables grow from `branch`: it bears that name
/// and the link that belongs to it, and its children are, one for one and in
/// order, the trees grown from the branches that `branch` feeds into.
pub open spec fn grows_from(
    node: Node,
    nexts: Seq<Entry>,
    links: Seq<Entry>,
    branch: Seq<char>,
) -> bool
    decreases node,
{
    &&& node.name == branch
    &&& node.link == resolve_link(links, branch)
    &&& node.children.len() == expand(nexts, branch).len()
    &&& forall|i: int|
        0 <= i < node.children.len() ==> grows_from(
            #[trigger] node.children[i],
            nexts,
            links,
            expand(nexts, branch)[i],
        )
}

/// `name` is the name of `node` or of a node below it.
pub open spec fn occurs(node: Node, name: Seq<char>) -> bool
    decreases node,
{
    node.name == name || exists|i: int|
        0 <= i < node.children.len() && occurs(#[trigger] node.children[i], name)
}

/// The names that occur in a tree, each counted once.
pub open spec fn names(node: Node) -> Set<Seq<char>> {
    Set::new(|name: Seq<char>| occurs(node, name))
}

/// The names that occur in any of a list of trees.
pub open spec fn names_of_all(list: Seq<Node>) -> Set<Seq<char>> {
    Set::new(
        |name: Seq<char>| exists|i: int| 0 <= i < list.len() && occurs(#[trigger] list[i], name),
    )
}

/// `part` is `node` itself or a node below it.
pub open spec fn within(node: Node, part: Node) -> bool
    decreases node,
{
    node == part || exists|i: int|
        0 <= i < node.children.len() && within(#[trigger] node.children[i], part)
}

/// The mark of a branch: `True` where the branch is among the accepted ones;
/// elsewhere `False` if a missing branch is known to lack the change, and
/// `Unknown` if it is not.
pub open spec fn verdict(accepted: bool, missing_means_absent: bool) -> Acceptance {
    if accepted {
        Acceptance::True
    } else if missing_means_absent {
        Acceptance::False
    } else {
        Acceptance::Unknown
    }
}

/// Every node of the tree bears the mark that `verdict` gives for its name.
pub open spec fn marked(node: Node, accepted: Set<Seq<char>>, missing_means_absent: bool) -> bool
    decreases node,
{
    &&& node.acceptance == verdict(accepted.contains(node.name), missing_means_absent)
    &&& forall|i: int|
        0 <= i < node.children.len() ==> marked(
            #[trigger] node.children[i],
            accepted,
            missing_means_absent,
        )
}

/// No node of the tree bears a mark yet: all are `Unknown`.
pub open spec fn unmarked(node: Node) -> bool {
    marked(node, Set::empty(), false)
}

/// The children of `node` bear, one for one and in order, the names of the
/// branches that the node's own branch feeds into.
pub open spec fn follows_table(node: Node, nexts: Seq<Entry>) -> bool {
    &&& node.children.len() == expand(nexts, node.name).len()
    &&& forall|i: int|
        0 <= i < node.children.len() ==> (#[trigger] node.children[i]).name == expand(
            nexts,
            node.name,
        )[i]
}

/// The tree of `branch`: the one unmarked tree that the tables grow from it.
pub open spec fn tree_of(nexts: Seq<Entry>, links: Seq<Entry>, branch: Seq<char>) -> Node {
    choose|node: Node| grows_from(node, nexts, links, branch) && unmarked(node)
}

/// An unmarked tree that grows from `branch` is the tree of `branch`.
pub proof fn lemma_tree_of(node: Node, nexts: Seq<Entry>, links: Seq<Entry>, branch: Seq<char>)
    requires
        grows_from(node, nexts, links, branch),
        unmarked(node),
    ensures
        tree_of(nexts, links, branch) == node,
{
    law_same_growth_same_tree(
        node,
        tree_of(nexts, links, branch),
        nexts,
        links,
        branch,
        Set::empty(),
        false,
    );
}

/// The tree with every mark set anew by `verdict`, and nothing else changed.
pub open spec fn marking(node: Node, accepted: Set<Seq<char>>, missing_means_absent: bool) -> Node
    decreases node,
{
    Node {
        name: node.name,
        acceptance: verdict(accepted.contains(node.name), missing_means_absent),
        link: node.link,
        children: Seq::new(
            node.children.len(),
            |i: int|
                if 0 <= i < node.children.len() {
                    marking(node.children[i], accepted, missing_means_absent)
                } else {
                    arbitrary()
                },
        ),
    }
}

/// The fewest branches in a row after which following the table from
/// `branch` ends, where it ends at all.
pub open spec fn height(table: Seq<Entry>, branch: Seq<char>) -> nat {
    choose|depth: nat|
        settles_within(table, branch, depth) && forall|less: nat|
            less < depth ==> !settles_within(table, branch, less)
}

proof fn lemma_least_depth(table: Seq<Entry>, branch: Seq<char>, depth: nat)
    requires
        settles_within(table, branch, depth),
    ensures
        exists|least: nat|
            settles_within(table, branch, least) && forall|less: nat|
                less < least ==> !settles_within(table, branch, less),
    decreases depth,
{
    if exists|less: nat| less < depth && settles_within(table, branch, less) {
        let less = choose|less: nat| less < depth && settles_within(table, branch, less);
        lemma_least_depth(table, branch, less);
    }
}

/// Where following the table from `branch` ends, it ends within the height,
/// and from each branch that `branch` feeds into it ends sooner.
pub proof fn lemma_height(table: Seq<Entry>, branch: Seq<char>)
    requires
        settles(table, branch),
    ensures
        settles_within(table, branch, height(table, branch)),
        forall|depth: nat| settles_within(table, branch, depth) ==> height(table, branch) <= depth,
        forall|i: int|
            0 <= i < expand(table, branch).len() ==> settles(
                table,
                #[trigger] expand(table, branch)[i],
            ) && height(table, expand(table, branch)[i]) < height(table, branch),
{
    let depth = choose|depth: nat| settles_within(table, branch, depth);
    lemma_least_depth(table, branch, depth);
    let h = height(table, branch);
    assert forall|i: int| 0 <= i < expand(table, branch).len() implies settles(
        table,
        #[trigger] expand(table, branch)[i],
    ) && height(table, expand(table, branch)[i]) < h by {
        let next = expand(table, branch)[i];
        assert(settles_within(table, next, (h - 1) as nat));
        lemma_least_depth(table, next, (h - 1) as nat);
    }
}

/// The branches that count as holding the change. For a change that was
/// merged by a known commit these are the branches that the repository
/// reported, and the base branch, which the host itself vouches for. In
/// every other case there are none.
pub open spec fn accepted_names(
    status: PullRequestStatus,
    base_branch: Seq<char>,
    report: AncestryReport,
) -> Set<Seq<char>> {
    match status {
        PullRequestStatus::Merged { merge_commit_oid: Some(_) } => texts(
            report.containing@,
        ).to_set().insert(base_branch),
        _ => Set::empty(),
    }
}

/// Whether a branch that is not among the accepted ones is known to lack the
/// change: always for a change that was not merged, never for one whose merge
/// commit is not known, and otherwise if the repository's answer is complete.
pub open spec fn absence_is_known(status: PullRequestStatus, report: AncestryReport) -> bool {
    match status {
        PullRequestStatus::Merged { merge_commit_oid: Some(_) } => report.complete,
        PullRequestStatus::Merged { merge_commit_oid: None } => false,
        _ => true,
    }
}

/// Marking a tree changes neither its names nor its shape.
pub proof fn lemma_marking_keeps_growth(
    node: Node,
    accepted: Set<Seq<char>>,
    missing_means_absent: bool,
    nexts: Seq<Entry>,
    links: Seq<Entry>,
    branch: Seq<char>,
)
    requires
        grows_from(node, nexts, links, branch),
    ensures
        grows_from(marking(node, accepted, missing_means_absent), nexts, links, branch),
    decreases node,
{
    let after = marking(node, accepted, missing_means_absent);
    assert forall|i: int| 0 <= i < after.children.len() implies grows_from(
        #[trigger] after.children[i],
        nexts,
        links,
        expand(nexts, branch)[i],
    ) by {
        lemma_marking_keeps_growth(
            node.children[i],
            accepted,
            missing_means_absent,
            nexts,
            links,
            expand(nexts, branch)[i],
        );
    }
}

/// Marking a tree leaves every node with the mark that `verdict` gives.
pub proof fn lemma_marking_marks(node: Node, accepted: Set<Seq<char>>, missing_means_absent: bool)
    ensures
        marked(marking(node, accepted, missing_means_absent), accepted, missing_means_absent),
    decreases node,
{
    let after = marking(node, accepted, missing_means_absent);
    assert forall|i: int| 0 <= i < after.children.len() implies marked(
        #[trigger] after.children[i],
        accepted,
        missing_means_absent,
    ) by {
        lemma_marking_marks(node.children[i], accepted, missing_means_absent);
    }
}

/// Marking a tree changes none of its names.
pub proof fn lemma_marking_keeps_names(
    node: Node,
    accepted: Set<Seq<char>>,
    missing_means_absent: bool,
    name: Seq<char>,
)
    ensures
        occurs(marking(node, accepted, missing_means_absent), name) == occurs(node, name),
    decreases node,
{
    let after = marking(node, accepted, missing_means_absent);
    if occurs(node, name) && node.name != name {
        let i = choose|i: int|
            0 <= i < node.children.len() && occurs(#[trigger] node.children[i], name);
        lemma_marking_keeps_names(node.children[i], accepted, missing_means_absent, name);
        assert(occurs(after.children[i], name));
    }
    if occurs(after, name) && after.name != name {
        let i = choose|i: int|
            0 <= i < after.children.len() && occurs(#[trigger] after.children[i], name);
        lemma_marking_keeps_names(node.children[i], accepted, missing_means_absent, name);
        assert(occurs(node.children[i], name));
    }
}

/// Taking the marks off a grown tree leaves an unmarked tree that grows from
/// the same branch.
pub proof fn lemma_unmarking(
    node: Node,
    nexts: Seq<Entry>,
    links: Seq<Entry>,
    branch: Seq<char>,
)
    requires
        grows_from(node, nexts, links, branch),
    ensures
        grows_from(marking(node, Set::empty(), false), nexts, links, branch),
        unmarked(marking(node, Set::empty(), false)),
{
    lemma_marking_keeps_growth(node, Set::empty(), false, nexts, links, branch);
    lemma_marking_marks(node, Set::empty(), false);
}

/// The marks of a tree depend only on which of the tree's own names are
/// accepted.
pub proof fn lemma_marked_agree(
    node: Node,
    accepted: Set<Seq<char>>,
    other: Set<Seq<char>>,
    missing_means_absent: bool,
)
    requires
        marked(node, accepted, missing_means_absent),
        forall|name: Seq<char>|
            occurs(node, name) ==> (accepted.contains(name) <==> other.contains(name)),
    ensures
        marked(node, other, missing_means_absent),
    decreases node,
{
    assert forall|i: int| 0 <= i < node.children.len() implies marked(
        #[trigger] node.children[i],
        other,
        missing_means_absent,
    ) by {
        assert forall|name: Seq<char>| occurs(node.children[i], name) implies (accepted.contains(
            name,
        ) <==> other.contains(name)) by {
            assert(occurs(node, name));
        }
        lemma_marked_agree(node.children[i], accepted, other, missing_means_absent);
    }
}

/// The tables and the marks decide the tree: two trees that grow from one
/// branch by the same tables, and are marked for the same accepted names in
/// the same way, are one and the same, node for node. So growing the tree of
/// a branch twice gives the same tree twice.
pub proof fn law_same_growth_same_tree(
    a: Node,
    b: Node,
    nexts: Seq<Entry>,
    links: Seq<Entry>,
    branch: Seq<char>,
    accepted: Set<Seq<char>>,
    missing_means_absent: bool,
)
    requires
        grows_from(a, nexts, links, branch),
        grows_from(b, nexts, links, branch),
        marked(a, accepted, missing_means_absent),
        marked(b, accepted, missing_means_absent),
    ensures
        a == b,
    decreases a,
{
    assert forall|i: int| 0 <= i < a.children.len() implies a.children[i] == b.children[i] by {
        law_same_growth_same_tree(
            a.children[i],
            b.children[i],
            nexts,
            links,
            expand(nexts, branch)[i],
            accepted,
            missing_means_absent,
        );
    }
    assert(a.children =~= b.children);
}

/// Every node of a grown tree, wherever it stands, is itself the tree grown
/// from its own name: its children bear, in order, the names of the branches
/// that its branch feeds into.
pub proof fn law_children_follow_the_table(
    root: Node,
    part: Node,
    nexts: Seq<Entry>,
    links: Seq<Entry>,
    branch: Seq<char>,
)
    requires
        grows_from(root, nexts, links, branch),
        within(root, part),
    ensures
        grows_from(part, nexts, links, part.name),
        part.children.len() == expand(nexts, part.name).len(),
        forall|i: int|
            0 <= i < part.children.len() ==> (#[trigger] part.children[i]).name == expand(
                nexts,
                part.name,
            )[i],
    decreases root,
{
    if root != part {
        let i = choose|i: int|
            0 <= i < root.children.len() && within(#[trigger] root.children[i], part);
        law_children_follow_the_table(
            root.children[i],
            part,
            nexts,
            links,
            expand(nexts, branch)[i],
        );
    }
    assert forall|i: int| 0 <= i < part.children.len() implies (#[trigger] part.children[i]).name
        == expand(nexts, part.name)[i] by {
        assert(grows_from(part.children[i], nexts, links, expand(nexts, part.name)[i]));
    }
}

/// Every node of a marked tree, wherever it stands, bears the mark that
/// `verdict` gives for its name: `True` exactly where the name is accepted,
/// elsewhere `False` or `Unknown` for the whole tree alike.
pub proof fn law_every_node_is_marked(
    root: Node,
    part: Node,
    accepted: Set<Seq<char>>,
    missing_means_absent: bool,
)
    requires
        marked(root, accepted, missing_means_absent),
        within(root, part),
    ensures
        part.acceptance == verdict(accepted.contains(part.name), missing_means_absent),
        part.acceptance == Acceptance::True <==> accepted.contains(part.name),
        !accepted.contains(part.name) ==> part.acceptance == (if missing_means_absent {
            Acceptance::False
        } else {
            Acceptance::Unknown
        }),
    decreases root,
{
    if root != part {
        let i = choose|i: int|
            0 <= i < root.children.len() && within(#[trigger] root.children[i], part);
        law_every_node_is_marked(root.children[i], part, accepted, missing_means_absent);
    }
}

/// For a change that was merged by a known commit, where the repository's
/// answer is complete: a node of the tree is marked `True` if the repository
/// reported its branch or it is the base branch, and `False` if not.
pub proof fn law_merged_by_known_commit(
    root: Node,
    part: Node,
    status: PullRequestStatus,
    base_branch: Seq<char>,
    report: AncestryReport,
)
    requires
        status matches PullRequestStatus::Merged { merge_commit_oid: Some(_) },
        report.complete,
        marked(
            root,
            accepted_names(status, base_branch, report),
            absence_is_known(status, report),
        ),
        within(root, part),
    ensures
        part.acceptance == (if texts(report.containing@).contains(part.name) || part.name
            == base_branch {
            Acceptance::True
        } else {
            Acceptance::False
        }),
{
    law_every_node_is_marked(
        root,
        part,
        accepted_names(status, base_branch, report),
        absence_is_known(status, report),
    );
}

/// For a change that was merged by a known commit, where the repository
/// failed: a node is marked `True` if the repository reported its branch
/// before it failed or it is the base branch, and `Unknown` if not.
pub proof fn law_merged_but_repository_failed(
    root: Node,
    part: Node,
    status: PullRequestStatus,
    base_branch: Seq<char>,
    report: AncestryReport,
)
    requires
        status matches PullRequestStatus::Merged { merge_commit_oid: Some(_) },
        !report.complete,
        marked(
            root,
            accepted_names(status, base_branch, report),
            absence_is_known(status, report),
        ),
        within(root, part),
    ensures
        part.acceptance == (if texts(report.containing@).contains(part.name) || part.name
            == base_branch {
            Acceptance::True
        } else {
            Acceptance::Unknown
        }),
{
    law_every_node_is_marked(
        root,
        part,
        accepted_names(status, base_branch, report),
        absence_is_known(status, report),
    );
}

/// For a change that was merged by a commit that is not known, every node of
/// the tree is marked `Unknown`.
pub proof fn law_merged_by_unknown_commit(
    root: Node,
    part: Node,
    status: PullRequestStatus,
    base_branch: Seq<char>,
    report: AncestryReport,
)
    requires
        status matches PullRequestStatus::Merged { merge_commit_oid: None },
        marked(
            root,
            accepted_names(status, base_branch, report),
            absence_is_known(status, report),
        ),
        within(root, part),
    ensures
        part.acceptance == Acceptance::Unknown,
{
    law_every_node_is_marked(
        root,
        part,
        accepted_names(status, base_branch, report),
        absence_is_known(status, report),
    );
}

/// For a change that was not merged, every node of the tree is marked
/// `False`.
pub proof fn law_not_merged(
    root: Node,
    part: Node,
    status: PullRequestStatus,
    base_branch: Seq<char>,
    report: AncestryReport,
)
    requires
        status is Open || status is Closed,
        marked(
            root,
            accepted_names(status, base_branch, report),
            absence_is_known(status, report),
        ),
        within(root, part),
    ensures
        part.acceptance == Acceptance::False,
{
    law_every_node_is_marked(
        root,
        part,
        accepted_names(status, base_branch, report),
        absence_is_known(status, report),
    );
}

/// A tree's names are its own name and those of its children.
pub proof fn lemma_names(node: Node)
    ensures
        names(node) == names_of_all(node.children).insert(node.name),
{
    assert(names(node) =~= names_of_all(node.children).insert(node.name));
}

/// A list of trees that grows by one tree grows by that tree's names.
pub proof fn lemma_names_of_all_push(list: Seq<Node>, node: Node)
    ensures
        names_of_all(list.push(node)) == names_of_all(list).union(names(node)),
{
    let more = list.push(node);
    assert forall|name: Seq<char>| names_of_all(more).contains(name) <==> names_of_all(
        list,
    ).union(names(node)).contains(name) by {
        if names_of_all(more).contains(name) {
            let i = choose|i: int| 0 <= i < more.len() && occurs(#[trigger] more[i], name);
            if i < list.len() {
                assert(occurs(list[i], name));
            }
        }
        if names_of_all(list).contains(name) {
            let i = choose|i: int| 0 <= i < list.len() && occurs(#[trigger] list[i], name);
            assert(occurs(more[i], name));
        }
        if names(node).contains(name) {
            assert(occurs(more[list.len() as int], name));
        }
    }
    assert(names_of_all(more) =~= names_of_all(list).union(names(node)));
}

/// A list of trees that grows by one tree has one more view.
proof fn lemma_nodes_push(trees: Seq<Tree>, tree: Tree)
    ensures
        nodes(trees.push(tree)) == nodes(trees).push(tree@),
{
    assert(nodes(trees.push(tree)) =~= nodes(trees).push(tree@));
}

impl Tree {
    /// Grows the tree of `branch`: a node for the branch, below it the trees
    /// of the branches that it feeds into, in the order in which `nexts` names
    /// them, and on every node the link that `links` gives for it. No node is
    /// marked yet. Every name that comes to stand in the tree is added to
    /// `found_branches`.
    ///
    /// The tables must lead from `branch` to an end: nothing here looks for a
    /// branch that leads back to itself.
    pub fn generate(
        nexts: &RuleTable,
        links: &RuleTable,
        branch: String,
        found_branches: &mut NameSet,
    ) -> (tree: Tree)
        requires
            nexts.wf(),
            links.wf(),
            old(found_branches).wf(),
            settles(nexts@, branch@),
        ensures
            tree@ == tree_of(nexts@, links@, branch@),
            grows_from(tree@, nexts@, links@, branch@),
            unmarked(tree@),
            final(found_branches).wf(),
            final(found_branches)@ == old(found_branches)@.union(names(tree@)),
        decreases height(nexts@, branch@),
    {
        found_branches.insert(branch.clone());
        let next = next_branches(nexts, branch.as_str());
        let mut children: Vec<Tree> = Vec::new();
        let mut i: usize = 0;
        proof {
            lemma_height(nexts@, branch@);
            assert(names_of_all(nodes(children@)) =~= Set::<Seq<char>>::empty());
            assert(found_branches@ =~= old(found_branches)@.insert(branch@).union(
                names_of_all(nodes(children@)),
            ));
        }
        while i < next.len()
            invariant
                nexts.wf(),
                links.wf(),
                found_branches.wf(),
                texts(next@) == expand(nexts@, branch@),
                i <= next@.len(),
                children@.len() == i,
                forall|j: int|
                    0 <= j < expand(nexts@, branch@).len() ==> settles(
                        nexts@,
                        #[trigger] expand(nexts@, branch@)[j],
                    ) && height(nexts@, expand(nexts@, branch@)[j]) < height(nexts@, branch@),
                forall|j: int|
                    0 <= j < i ==> grows_from(
                        #[trigger] nodes(children@)[j],
                        nexts@,
                        links@,
                        expand(nexts@, branch@)[j],
                    ),
                forall|j: int| 0 <= j < i ==> unmarked(#[trigger] nodes(children@)[j]),
                found_branches@ == old(found_branches)@.insert(branch@).union(
                    names_of_all(nodes(children@)),
                ),
            decreases next@.len() - i,
        {
            let ghost before = children@;
            let ghost found_before = found_branches@;
            assert(texts(next@)[i as int] == next@[i as int]@);
            let child = Tree::generate(nexts, links, next[i].clone(), found_branches);
            proof {
                lemma_nodes_push(before, child);
                lemma_names_of_all_push(nodes(before), child@);
            }
            children.push(child);
            proof {
                assert(found_branches@ =~= old(found_branches)@.insert(branch@).union(
                    names_of_all(nodes(children@)),
                ));
            }
            i = i + 1;
        }
        let link = branch_hydra_link(links, branch.as_str());
        let tree = Tree {
            accepted: Acceptance::Unknown,
            branch_name: branch,
            hydra_link: link,
            children,
        };
        proof {
            lemma_names(tree@);
            assert(found_branches@ =~= old(found_branches)@.union(names(tree@)));
            lemma_tree_of(tree@, nexts@, links@, branch@);
        }
        tree
    }

    /// Adds every name that stands in the tree to `out`.
    pub fn all_branches(&self, out: &mut NameSet)
        requires
            old(out).wf(),
        ensures
            final(out).wf(),
            final(out)@ == old(out)@.union(names(self@)),
        decreases self,
    {
        out.insert(self.branch_name.clone());
        let mut i: usize = 0;
        proof {
            assert(names_of_all(nodes(self.children@).take(0)) =~= Set::<Seq<char>>::empty());
            assert(out@ =~= old(out)@.insert(self.branch_name@).union(
                names_of_all(nodes(self.children@).take(0)),
            ));
        }
        while i < self.children.len()
            invariant
                out.wf(),
                i <= self.children@.len(),
                out@ == old(out)@.insert(self.branch_name@).union(
                    names_of_all(nodes(self.children@).take(i as int)),
                ),
            decreases self.children@.len() - i,
        {
            let child = &self.children[i];
            child.all_branches(out);
            proof {
                let list = nodes(self.children@);
                assert(list.take(i + 1) =~= list.take(i as int).push(child@));
                lemma_names_of_all_push(list.take(i as int), child@);
                assert(out@ =~= old(out)@.insert(self.branch_name@).union(
                    names_of_all(list.take(i + 1)),
                ));
            }
            i = i + 1;
        }
        proof {
            assert(nodes(self.children@).take(i as int) =~= nodes(self.children@));
            lemma_names(self@);
            assert(out@ =~= old(out)@.union(names(self@)));
        }
    }

    /// Marks every node of the tree: `True` where its name is in `branches`;
    /// elsewhere `False` if `missing_means_absent`, and `Unknown` if not.
    pub fn fill_accepted(&mut self, branches: &NameSet, missing_means_absent: bool)
        requires
            branches.wf(),
        ensures
            final(self)@ == marking(old(self)@, branches@, missing_means_absent),
        decreases *old(self),
    {
        self.accepted = if branches.contains(self.branch_name.as_str()) {
            Acceptance::True
        } else if missing_means_absent {
            Acceptance::False
        } else {
            Acceptance::Unknown
        };
        let mut i: usize = 0;
        while i < self.children.len()
            invariant
                branches.wf(),
                self.branch_name == old(self).branch_name,
                self.hydra_link == old(self).hydra_link,
                self.accepted == verdict(
                    branches@.contains(old(self).branch_name@),
                    missing_means_absent,
                ),
                self.children@.len() == old(self).children@.len(),
                i <= self.children@.len(),
                forall|j: int|
                    0 <= j < i ==> (#[trigger] self.children@[j])@ == marking(
                        old(self).children@[j]@,
                        branches@,
                        missing_means_absent,
                    ),
                forall|j: int|
                    i <= j < self.children@.len() ==> #[trigger] self.children@[j] == old(
                        self,
                    ).children@[j],
            decreases self.children@.len() - i,
        {
            self.children[i].fill_accepted(branches, missing_means_absent);
            i = i + 1;
        }
        proof {
            let after = self@;
            let wanted = marking(old(self)@, branches@, missing_means_absent);
            assert(after.children.len() == wanted.children.len());
            assert forall|j: int| 0 <= j < after.children.len() implies after.children[j]
                == wanted.children[j] by {
                assert(after.children[j] == self.children@[j]@);
                assert(old(self)@.children[j] == old(self).children@[j]@);
            }
            assert(after.children =~= wanted.children);
        }
        assert(self@ =~= marking(old(self)@, branches@, missing_means_absent));
    }
}

impl Inquiry {
    /// Marks the tree by what the repository answered. Accepted are the
    /// branches of the tree that the repository reported, and the base branch,
    /// whatever the repository said of it. A branch that is not accepted is
    /// marked `False` where the answer is complete, and `Unknown` where the
    /// repository failed.
    pub fn finish(self, report: &AncestryReport) -> (tree: Tree)
        requires
            self.found.wf(),
        ensures
            tree@ == marking(
                self.tree@,
                self.found@.intersect(texts(report.containing@).to_set()).insert(
                    self.base_branch@,
                ),
                report.complete,
            ),
    {
        let Inquiry { tree, found, candidates: _, commit: _, base_branch } = self;
        let mut tree = tree;
        let containing = NameSet::from_names(&report.containing);
        let mut branches = found.intersection(&containing);
        branches.insert(base_branch);
        tree.fill_accepted(&branches, report.complete);
        tree
    }
}

impl Tree {
    /// Grows the tree of `base_branch` and marks it as far as that can be done
    /// without the repository. For a change that was not merged every branch
    /// is marked `False`; for one that was merged by an unknown commit every
    /// branch is marked `Unknown`. For one that was merged by a known commit
    /// the tree comes back unmarked, with the question to put to the
    /// repository.
    pub fn start(
        nexts: &RuleTable,
        links: &RuleTable,
        base_branch: String,
        merge_status: &PullRequestStatus,
    ) -> (r: Progress)
        requires
            nexts.wf(),
            links.wf(),
            settles(nexts@, base_branch@),
        ensures
            match *merge_status {
                PullRequestStatus::Merged { merge_commit_oid: Some(commit) } => {
                    &&& r matches Progress::Asking(inquiry)
                    &&& inquiry.tree@ == tree_of(nexts@, links@, base_branch@)
                    &&& grows_from(inquiry.tree@, nexts@, links@, base_branch@)
                    &&& unmarked(inquiry.tree@)
                    &&& inquiry.found.wf()
                    &&& inquiry.found@ == names(inquiry.tree@)
                    &&& inquiry.candidates.wf()
                    &&& inquiry.candidates@ == names(inquiry.tree@)
                    &&& inquiry.commit@ == commit@
                    &&& inquiry.base_branch@ == base_branch@
                },
                PullRequestStatus::Merged { merge_commit_oid: None } => {
                    &&& r matches Progress::Done(tree)
                    &&& tree@ == tree_of(nexts@, links@, base_branch@)
                    &&& grows_from(tree@, nexts@, links@, base_branch@)
                    &&& marked(tree@, Set::empty(), false)
                },
                _ => {
                    &&& r matches Progress::Done(tree)
                    &&& tree@ == marking(
                        tree_of(nexts@, links@, base_branch@),
                        Set::empty(),
                        true,
                    )
                    &&& grows_from(tree@, nexts@, links@, base_branch@)
                    &&& marked(tree@, Set::empty(), true)
                },
            },
    {
        let mut missing_means_absent = true;
        let mut branches = NameSet::new();
        let mut tree = Tree::generate(nexts, links, base_branch.clone(), &mut branches);
        let ghost grown = tree@;
        proof {
            assert(branches@ =~= names(grown));
        }
        if let PullRequestStatus::Merged { merge_commit_oid } = merge_status {
            if let Some(merge_commit) = merge_commit_oid {
                let mut all_branches = NameSet::new();
                tree.all_branches(&mut all_branches);
                proof {
                    assert(all_branches@ =~= names(grown));
                }
                return Progress::Asking(
                    Inquiry {
                        tree,
                        found: branches,
                        candidates: all_branches,
                        commit: merge_commit.clone(),
                        base_branch,
                    },
                );
            } else {
                branches.clear();
                missing_means_absent = false;
            }
        } else {
            branches.clear();
        }
        tree.fill_accepted(&branches, missing_means_absent);
        proof {
            lemma_marking_keeps_growth(
                grown,
                branches@,
                missing_means_absent,
                nexts@,
                links@,
                base_branch@,
            );
            lemma_marking_marks(grown, branches@, missing_means_absent);
            if !missing_means_absent {
                lemma_tree_of(tree@, nexts@, links@, base_branch@);
            }
        }
        Progress::Done(tree)
    }

    /// The tree of `base_branch`, every branch marked with whether the change
    /// has arrived there. `report` is what the repository answered about the
    /// branches of the tree; it counts only for a change that was merged by a
    /// known commit.
    ///
    /// The tables must lead from `base_branch` to an end: nothing here looks
    /// for a branch that leads back to itself.
    pub fn make(
        nexts: &RuleTable,
        links: &RuleTable,
        base_branch: String,
        merge_status: &PullRequestStatus,
        report: &AncestryReport,
    ) -> (tree: Tree)
        requires
            nexts.wf(),
            links.wf(),
            settles(nexts@, base_branch@),
        ensures
            tree@ == marking(
                tree_of(nexts@, links@, base_branch@),
                accepted_names(*merge_status, base_branch@, *report),
                absence_is_known(*merge_status, *report),
            ),
            grows_from(tree@, nexts@, links@, base_branch@),
            marked(
                tree@,
                accepted_names(*merge_status, base_branch@, *report),
                absence_is_known(*merge_status, *report),
            ),
            forall|part: Node| #[trigger]
                within(tree@, part) ==> follows_table(part, nexts@) && part.acceptance == verdict(
                    accepted_names(*merge_status, base_branch@, *report).contains(part.name),
                    absence_is_known(*merge_status, *report),
                ),
    {
        let tree = match Tree::start(nexts, links, base_branch, merge_status) {
            Progress::Done(tree) => tree,
            Progress::Asking(inquiry) => {
                let ghost grown = inquiry.tree@;
                let ghost reported = texts(report.containing@).to_set();
                let ghost accepted = inquiry.found@.intersect(reported).insert(
                    inquiry.base_branch@,
                );
                let tree = inquiry.finish(report);
                proof {
                    lemma_marking_keeps_growth(
                        grown,
                        accepted,
                        report.complete,
                        nexts@,
                        links@,
                        base_branch@,
                    );
                    lemma_marking_marks(grown, accepted, report.complete);
                    assert forall|name: Seq<char>| occurs(tree@, name) implies (accepted.contains(
                        name,
                    ) <==> reported.insert(base_branch@).contains(name)) by {
                        lemma_marking_keeps_names(grown, accepted, report.complete, name);
                        assert(names(grown).contains(name));
                    }
                    lemma_marked_agree(
                        tree@,
                        accepted,
                        reported.insert(base_branch@),
                        report.complete,
                    );
                }
                tree
            },
        };
        proof {
            let accepted = accepted_names(*merge_status, base_branch@, *report);
            let known = absence_is_known(*merge_status, *report);
            assert forall|part: Node| #[trigger] within(tree@, part) implies follows_table(
                part,
                nexts@,
            ) && part.acceptance == verdict(accepted.contains(part.name), known) by {
                law_children_follow_the_table(tree@, part, nexts@, links@, base_branch@);
                law_every_node_is_marked(tree@, part, accepted, known);
            }
            let blank = tree_of(nexts@, links@, base_branch@);
            lemma_unmarking(tree@, nexts@, links@, base_branch@);
            lemma_tree_of(marking(tree@, Set::empty(), false), nexts@, links@, base_branch@);
            lemma_marking_keeps_growth(blank, accepted, known, nexts@, links@, base_branch@);
            lemma_marking_marks(blank, accepted, known);
            law_same_growth_same_tree(
                tree@,
                marking(blank, accepted, known),
                nexts@,
                links@,
                base_branch@,
                accepted,
                known,
            );
        }
        tree
    }

    /// As `make`, where following `nexts` from `base_branch` ends after at
    /// most `depth` branches in a row; nothing where it does not.
    pub fn make_within(
        nexts: &RuleTable,
        links: &RuleTable,
        base_branch: String,
        merge_status: &PullRequestStatus,
        report: &AncestryReport,
        depth: usize,
    ) -> (r: Option<Tree>)
        requires
            nexts.wf(),
            links.wf(),
        ensures
            r is Some <==> settles_within(nexts@, base_branch@, depth as nat),
            r matches Some(tree) ==> {
                &&& tree@ == marking(
                    tree_of(nexts@, links@, base_branch@),
                    accepted_names(*merge_status, base_branch@, *report),
                    absence_is_known(*merge_status, *report),
                )
                &&& grows_from(tree@, nexts@, links@, base_branch@)
                &&& marked(
                    tree@,
                    accepted_names(*merge_status, base_branch@, *report),
                    absence_is_known(*merge_status, *report),
                )
            },
    {
        if nexts.settles_within(base_branch.as_str(), depth) {
            Some(Tree::make(nexts, links, base_branch, merge_status, report))
        } else {
            None
        }
    }

    /// A tree of the given parts.
    pub fn new(
        branch_name: String,
        accepted: Acceptance,
        hydra_link: Option<String>,
        children: Vec<Tree>,
    ) -> (tree: Tree)
        ensures
            tree@.name == branch_name@,
            tree@.acceptance == accepted,
            match hydra_link {
                Some(url) => tree@.link == Some(url@),
                None => tree@.link is None,
            },
            tree@.children.len() == children@.len(),
            forall|i: int|
                0 <= i < children@.len() ==> tree@.children[i] == (#[trigger] children@[i])@,
    {
        Tree { branch_name, accepted, hydra_link, children }
    }

    /// The name of the branch.
    pub fn branch_name(&self) -> (name: &String)
        ensures
            name@ == self@.name,
    {
        &self.branch_name
    }

    /// Whether the change has arrived in the branch.
    pub fn accepted(&self) -> (mark: Acceptance)
        ensures
            mark == self@.acceptance,
    {
        self.accepted
    }

    /// The link that belongs to the branch, if it has one.
    pub fn hydra_link(&self) -> (link: &Option<String>)
        ensures
            match *link {
                Some(url) => self@.link == Some(url@),
                None => self@.link is None,
            },
    {
        &self.hydra_link
    }

    /// The trees of the branches that the branch feeds into, in order.
    pub fn children(&self) -> (children: &Vec<Tree>)
        ensures
            children@.len() == self@.children.len(),
            forall|i: int| 0 <= i < children@.len() ==> (#[trigger] children@[i])@ == self@.children[i],
    {
        &self.children
    }
}

} // verus!
