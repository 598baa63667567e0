//! Reading and rewriting the kernel command line (`/chosen/bootargs`) of a device
//! tree.
//!
//! `bootargs` is the one property fully decoupled from guest-physical placement:
//! editing it disturbs nothing else (not the device map, not the initrd extent),
//! so it is safe to change after a build.
use vstd::prelude::*;

verus! {

/// One change to a device tree.
#[derive(Debug)]
pub enum TreeEdit {
    /// Add an empty `/chosen` node.
    AddChosen,
    /// Set `bootargs` of `/chosen`, replacing it where it is there.
    SetBootargs(String),
}

/// What to do with a device tree.
#[derive(Debug)]
pub enum Action {
    /// Print this text.
    Print(String),
    /// Make these changes, in order, and write the tree back.
    Rewrite(Vec<TreeEdit>),
}

/// What a [`TreeEdit`] changes.
pub enum Edit {
    AddChosen,
    SetBootargs(Seq<char>),
}

impl View for TreeEdit {
    type V = Edit;

    open spec fn view(&self) -> Edit {
        match *self {
            TreeEdit::AddChosen => Edit::AddChosen,
            TreeEdit::SetBootargs(s) => Edit::SetBootargs(s@),
        }
    }
}

/// What each of the edits changes.
pub open spec fn edits_view(edits: Seq<TreeEdit>) -> Seq<Edit> {
    edits.map_values(|e: TreeEdit| e@)
}

/// A device tree as the edits see it: the properties of `/chosen`, where there is
/// one, each with its text where it is text, and everything else.
pub struct TreeModel<R> {
    pub chosen: Option<Map<Seq<char>, Option<Seq<char>>>>,
    pub rest: R,
}

/// The tree after one edit.
pub open spec fn edited<R>(tree: TreeModel<R>, edit: Edit) -> TreeModel<R> {
    match (edit, tree.chosen) {
        (Edit::AddChosen, _) => TreeModel { chosen: Some(Map::empty()), ..tree },
        (Edit::SetBootargs(text), Some(properties)) => TreeModel {
            chosen: Some(properties.insert("bootargs"@, Some(text))),
            ..tree
        },
        (Edit::SetBootargs(_), None) => tree,
    }
}

/// The tree after the edits, in order.
pub open spec fn all_edited<R>(tree: TreeModel<R>, edits: Seq<Edit>) -> TreeModel<R>
    decreases edits.len(),
{
    if edits.len() == 0 {
        tree
    } else {
        edited(all_edited(tree, edits.drop_last()), edits.last())
    }
}

/// The `bootargs` property of the tree, where there is one.
pub open spec fn bootargs_property<R>(tree: TreeModel<R>) -> Option<Option<Seq<char>>> {
    match tree.chosen {
        Some(properties) => if properties.dom().contains("bootargs"@) {
            Some(properties["bootargs"@])
        } else {
            None
        },
        None => None,
    }
}

/// The command line that a `bootargs` property stands for: its text, empty where
/// the property is missing or no text.
pub open spec fn command_line(property: Option<Option<Seq<char>>>) -> Seq<char> {
    match property {
        Some(Some(text)) => text,
        _ => seq![],
    }
}

/// The edits that set the command line: `/chosen` is created if absent.
pub open spec fn rewrite_edits(has_chosen: bool, new: Seq<char>) -> Seq<Edit> {
    if has_chosen {
        seq![Edit::SetBootargs(new)]
    } else {
        seq![Edit::AddChosen, Edit::SetBootargs(new)]
    }
}

/// A rewritten command line reads back verbatim, the empty one too, whether
/// `/chosen` was there or not.
pub proof fn rewritten_command_line_reads_back<R>(tree: TreeModel<R>, new: Seq<char>)
    ensures
        command_line(
            bootargs_property(all_edited(tree, rewrite_edits(tree.chosen is Some, new))),
        ) == new,
{
    lemma_rewritten(tree, new);
}

/// Rewriting the command line changes nothing but `bootargs`: everything outside
/// `/chosen` and every other property of it stays as it was.
pub proof fn rewriting_changes_only_bootargs<R>(tree: TreeModel<R>, new: Seq<char>)
    ensures
        ({
            let after = all_edited(tree, rewrite_edits(tree.chosen is Some, new));
            let properties = match tree.chosen {
                Some(properties) => properties,
                None => Map::empty(),
            };
            &&& after.rest == tree.rest
            &&& after.chosen == Some(properties.insert("bootargs"@, Some(new)))
        }),
{
    lemma_rewritten(tree, new);
}

/// Rewriting twice is rewriting with the last.
pub proof fn last_rewrite_wins<R>(tree: TreeModel<R>, first: Seq<char>, second: Seq<char>)
    ensures
        ({
            let once = all_edited(tree, rewrite_edits(tree.chosen is Some, first));
            all_edited(once, rewrite_edits(once.chosen is Some, second)) == all_edited(
                tree,
                rewrite_edits(tree.chosen is Some, second),
            )
        }),
{
    let once = all_edited(tree, rewrite_edits(tree.chosen is Some, first));
    lemma_rewritten(tree, first);
    lemma_rewritten(tree, second);
    lemma_rewritten(once, second);
    let properties = match tree.chosen {
        Some(properties) => properties,
        None => Map::empty(),
    };
    assert(properties.insert("bootargs"@, Some(first)).insert("bootargs"@, Some(second))
        =~= properties.insert("bootargs"@, Some(second)));
}

/// What the edits make of a tree.
proof fn lemma_rewritten<R>(tree: TreeModel<R>, new: Seq<char>)
    ensures
        ({
            let properties = match tree.chosen {
                Some(properties) => properties,
                None => Map::empty(),
            };
            all_edited(tree, rewrite_edits(tree.chosen is Some, new)) == (TreeModel {
                chosen: Some(properties.insert("bootargs"@, Some(new))),
                rest: tree.rest,
            })
        }),
{
    let edits = rewrite_edits(tree.chosen is Some, new);
    reveal_with_fuel(all_edited, 3);
    if tree.chosen is Some {
        assert(edits.drop_last() =~= seq![]);
    } else {
        assert(edits.drop_last() =~= seq![Edit::AddChosen]);
        assert(edits.drop_last().drop_last() =~= seq![]);
    }
}

/// The text of a property that may be missing.
pub open spec fn property_view(property: Option<Option<&str>>) -> Option<Option<Seq<char>>> {
    match property {
        Some(Some(text)) => Some(Some(text@)),
        Some(None) => Some(None),
        None => None,
    }
}

/// The current `/chosen/bootargs` string, or empty if the tree declares none.
/// `property` is the property, where there is one, with its text, where it is
/// text.
pub fn read_bootargs(property: Option<Option<&str>>) -> (r: String)
    ensures
        r@ == command_line(property_view(property)),
{
    match property {
        Some(Some(text)) => text.to_owned(),
        _ => {
            let r: String = String::new();
            assert(r@ =~= seq![]);
            r
        },
    }
}

/// The changes that rewrite `/chosen/bootargs` to `new`; `/chosen` is created if
/// absent.
pub fn write_bootargs(has_chosen: bool, new: &str) -> (r: Vec<TreeEdit>)
    ensures
        edits_view(r@) == rewrite_edits(has_chosen, new@),
{
    let mut edits: Vec<TreeEdit> = Vec::new();
    if !has_chosen {
        edits.push(TreeEdit::AddChosen);
    }
    edits.push(TreeEdit::SetBootargs(new.to_owned()));
    assert(edits_view(edits@) =~= rewrite_edits(has_chosen, new@));
    edits
}

/// Read (`cmdline` = `None`) or rewrite (`Some`) `/chosen/bootargs` of a tree.
/// Reads print the current command line; writes replace it verbatim.
pub fn run(cmdline: Option<&str>, has_chosen: bool, property: Option<Option<&str>>) -> (r: Action)
    ensures
        match (cmdline, r) {
            (None, Action::Print(text)) => text@ == command_line(property_view(property)),
            (Some(new), Action::Rewrite(edits)) => edits_view(edits@) == rewrite_edits(
                has_chosen,
                new@,
            ),
            _ => false,
        },
{
    match cmdline {
        None => Action::Print(read_bootargs(property)),
        Some(new) => Action::Rewrite(write_bootargs(has_chosen, new)),
    }
}

/// The command line is the text of the property, and empty where it is missing or no
/// text.
pub proof fn command_line_is_the_property_text(text: Seq<char>)
    ensures
        command_line(Some(Some(text))) == text,
        command_line(Some(None)).len() == 0,
        command_line(None).len() == 0,
{
}

/// The last edit sets the property to the new text, verbatim; before it `/chosen` is
/// added exactly where it is absent, and nothing else is changed.
pub proof fn edits_set_the_text_verbatim(has_chosen: bool, new: Seq<char>)
    ensures
        rewrite_edits(has_chosen, new).len() > 0,
        rewrite_edits(has_chosen, new).last() == Edit::SetBootargs(new),
        has_chosen ==> rewrite_edits(has_chosen, new).len() == 1,
        !has_chosen ==> rewrite_edits(has_chosen, new).len() == 2 && rewrite_edits(
            has_chosen,
            new,
        ).first() == Edit::AddChosen,
{
}

/// Edits and properties are seen as they are, each in its place.
pub proof fn edits_are_seen_as_they_are(edits: Seq<TreeEdit>, text: &str)
    ensures
        edits_view(edits).len() == edits.len(),
        forall|i: int|
            0 <= i < edits.len() ==> match #[trigger] edits[i] {
                TreeEdit::AddChosen => edits_view(edits)[i] == Edit::AddChosen,
                TreeEdit::SetBootargs(s) => edits_view(edits)[i] == Edit::SetBootargs(s@),
            },
        property_view(Some(Some(text))) == Some(Some(text@)),
        property_view(Some(None)) == Some(None::<Seq<char>>),
        property_view(None) is None,
{
}

} // verus!
