//! What holds of the search for elements in the accessibility tree: that none is missed, and in which
//! order applications, frames and objects are visited.

use vstd::prelude::*;

use crate::active_monitor::FocusedWindow;
use crate::app_scan::{self, AppScanView, ScanQuery, ScanReplyView, ScanStageView};
use crate::atspi_scan::{self, Category, ElementView, ObjectView, Query, ReplyView, Stage, Tree};

verus! {

/// The category of a role by its number: what is clicked, what is written into, what is scrolled, and
/// terminals. Nothing else is worth a hint.
pub open spec fn worth_a_hint(role: u32) -> Option<Category> {
    if seq![7u32, 8, 11, 35, 43, 44, 45, 51, 52, 59, 62, 88, 129].contains(role) {
        Some(Category::Button)
    } else if role == 79 || role == 40 {
        Some(Category::TextField)
    } else if seq![48u32, 49, 68, 82].contains(role) {
        Some(Category::Scrollable)
    } else if role == 60 {
        Some(Category::Terminal)
    } else {
        None
    }
}

/// Which roles are worth a hint.
pub proof fn roles_have_their_categories(role: u32)
    ensures
        atspi_scan::category_of(role) == worth_a_hint(role),
{
    let buttons = seq![7u32, 8, 11, 35, 43, 44, 45, 51, 52, 59, 62, 88, 129];
    let scrolled = seq![48u32, 49, 68, 82];
    assert(buttons[0] == 7 && buttons[1] == 8 && buttons[2] == 11 && buttons[3] == 35 && buttons[4]
        == 43 && buttons[5] == 44 && buttons[6] == 45 && buttons[7] == 51 && buttons[8] == 52
        && buttons[9] == 59 && buttons[10] == 62 && buttons[11] == 88 && buttons[12] == 129);
    assert(scrolled[0] == 48 && scrolled[1] == 49 && scrolled[2] == 68 && scrolled[3] == 82);
}

/// Whether an object is a child of another one.
pub open spec fn child_of(tree: Tree, child: usize, parent: usize) -> bool {
    tree(parent).children matches Some(children) && children.contains(child)
}

/// Whether a path leads from an object down the tree, and all objects on it say whether they are
/// showing.
pub open spec fn leads_down(tree: Tree, path: Seq<usize>) -> bool {
    &&& path.len() > 0
    &&& forall|i: int| 0 <= i < path.len() ==> tree(#[trigger] path[i]).state is Some
    &&& forall|i: int|
        0 < i < path.len() ==> child_of(tree, #[trigger] path[i], path[i - 1])
}

proof fn lemma_all_hold(
    tree: Tree,
    objects: Seq<usize>,
    depth: nat,
    x: i64,
    y: i64,
    object: usize,
    e: ElementView,
)
    requires
        objects.contains(object),
        atspi_scan::elements_from(tree, object, depth, x, y).contains(e),
    ensures
        atspi_scan::elements_of_all(tree, objects, depth, x, y).contains(e),
    decreases objects.len(),
{
    let first = atspi_scan::elements_from(tree, objects[0], depth, x, y);
    let rest = atspi_scan::elements_of_all(tree, objects.drop_first(), depth, x, y);
    let all = atspi_scan::elements_of_all(tree, objects, depth, x, y);
    if objects[0] == object {
        let k = choose|k: int| 0 <= k < first.len() && first[k] == e;
        assert(all[k] == e);
    } else {
        let i = choose|i: int| 0 <= i < objects.len() && objects[i] == object;
        assert(objects.drop_first()[i - 1] == object);
        lemma_all_hold(tree, objects.drop_first(), depth, x, y, object, e);
        let k = choose|k: int| 0 <= k < rest.len() && rest[k] == e;
        assert(all[first.len() + k] == e);
    }
}

proof fn lemma_path(
    tree: Tree,
    path: Seq<usize>,
    depth: nat,
    x: i64,
    y: i64,
    e: ElementView,
)
    requires
        leads_down(tree, path),
        depth + path.len() <= 41,
        atspi_scan::own_element(
            tree(path.last()),
            tree(path.last()).state->0,
            x,
            y,
        ) == seq![e],
    ensures
        atspi_scan::elements_from(tree, path[0], depth, x, y).contains(e),
    decreases path.len(),
{
    let o = tree(path[0]);
    let own = atspi_scan::own_element(o, o.state->0, x, y);
    let below = atspi_scan::elements_below(tree, o.children, depth, x, y);
    let all = atspi_scan::elements_from(tree, path[0], depth, x, y);
    assert(all == own + below);
    if path.len() == 1 {
        assert(all[0] == e);
    } else {
        let rest = path.drop_first();
        assert forall|i: int| 0 <= i < rest.len() implies tree(#[trigger] rest[i]).state is Some by {
            assert(rest[i] == path[i + 1]);
        }
        assert forall|i: int| 0 < i < rest.len() implies child_of(
            tree,
            #[trigger] rest[i],
            rest[i - 1],
        ) by {
            assert(rest[i] == path[i + 1]);
        }
        lemma_path(tree, rest, depth + 1, x, y, e);
        assert(child_of(tree, path[1], path[0]));
        lemma_all_hold(tree, o.children->0, depth + 1, x, y, path[1], e);
        let k = choose|k: int| 0 <= k < below.len() && below[k] == e;
        assert(all[own.len() + k] == e);
    }
}

/// No element is missed: an object that a path of up to forty steps leads to from a frame is found, if
/// it is showing, its role is worth a hint, and it has a size and a position other than the one that
/// stands for an unknown one. It is found with its name, in pixels from where the frame's window is.
pub proof fn no_element_is_missed(
    tree: Tree,
    path: Seq<usize>,
    offset_x: i64,
    offset_y: i64,
    role: u32,
    extents: (i32, i32, i32, i32),
)
    requires
        leads_down(tree, path),
        path.len() <= 41,
        tree(path.last()).state == Some(true),
        tree(path.last()).role == Some(role),
        tree(path.last()).extents == Some(extents),
        worth_a_hint(role) is Some,
        extents.2 > 0,
        extents.3 > 0,
        extents.0 != 0 || extents.1 != 0,
        i64::MIN <= 450 * extents.0 + offset_x <= i64::MAX,
        i64::MIN <= 450 * extents.1 + offset_y <= i64::MAX,
    ensures
        atspi_scan::elements_from(tree, path[0], 0, offset_x, offset_y).contains(
            ElementView {
                role,
                category: worth_a_hint(role)->0,
                name: match tree(path.last()).name {
                    Some(name) => name,
                    None => Seq::empty(),
                },
                x: (450 * extents.0 + offset_x) as i64,
                y: (450 * extents.1 + offset_y) as i64,
                w: (450 * extents.2) as i64,
                h: (450 * extents.3) as i64,
            },
        ),
{
    roles_have_their_categories(role);
    let e = ElementView {
        role,
        category: worth_a_hint(role)->0,
        name: match tree(path.last()).name {
            Some(name) => name,
            None => Seq::empty(),
        },
        x: (450 * extents.0 + offset_x) as i64,
        y: (450 * extents.1 + offset_y) as i64,
        w: (450 * extents.2) as i64,
        h: (450 * extents.3) as i64,
    };
    lemma_path(tree, path, 0, offset_x, offset_y, e);
}

/// An object comes before everything below it, and what is below its first child before what is below
/// its second. One that does not say whether it is showing is left out with everything below it.
pub proof fn elements_come_in_the_order_of_the_tree(
    tree: Tree,
    object: usize,
    depth: nat,
    x: i64,
    y: i64,
)
    ensures
        ({
            let o = tree(object);
            let found = atspi_scan::elements_from(tree, object, depth, x, y);
            &&& o.state is None || depth > 40 ==> found.len() == 0
            &&& o.state is Some && depth <= 40 && (o.children is None || depth == 40) ==> found
                == atspi_scan::own_element(o, o.state->0, x, y)
            &&& o.state is Some && depth < 40 && o.children is Some ==> found
                == atspi_scan::own_element(o, o.state->0, x, y) + Seq::new(
                o.children->0.len(),
                |i: int| atspi_scan::elements_from(tree, o.children->0[i], depth + 1, x, y),
            ).flatten()
        }),
{
    let o = tree(object);
    if o.state is Some && depth <= 40 {
        let own = atspi_scan::own_element(o, o.state->0, x, y);
        assert(own + Seq::<ElementView>::empty() =~= own);
        if depth < 40 && o.children is Some {
            lemma_children(tree, o.children->0, depth + 1, x, y);
        }
    }
}

proof fn lemma_children(tree: Tree, objects: Seq<usize>, depth: nat, x: i64, y: i64)
    ensures
        atspi_scan::elements_of_all(tree, objects, depth, x, y) == Seq::new(
            objects.len(),
            |i: int| atspi_scan::elements_from(tree, objects[i], depth, x, y),
        ).flatten(),
    decreases objects.len(),
{
    let all = Seq::new(
        objects.len(),
        |i: int| atspi_scan::elements_from(tree, objects[i], depth, x, y),
    );
    if objects.len() > 0 {
        let rest = objects.drop_first();
        lemma_children(tree, rest, depth, x, y);
        assert(all.drop_first() =~= Seq::new(
            rest.len(),
            |i: int| atspi_scan::elements_from(tree, rest[i], depth, x, y),
        ));
    }
}

/// What an object is by itself: an element if it is showing, its role is worth a hint and it has a size
/// and a known position, and nothing otherwise.
pub proof fn only_what_shows_is_an_element(o: ObjectView, showing: bool, x: i64, y: i64)
    ensures
        ({
            let own = atspi_scan::own_element(o, showing, x, y);
            match (o.role, o.extents) {
                (Some(role), Some(e)) => {
                    &&& own.len() <= 1
                    &&& own.len() == 1 <==> showing && worth_a_hint(role) is Some && e.2 > 0 && e.3
                        > 0 && (e.0 != 0 || e.1 != 0)
                    &&& own.len() == 1 ==> own[0].role == role && Some(own[0].category)
                        == worth_a_hint(role) && own[0].w == 450 * e.2 && own[0].h == 450 * e.3
                },
                _ => own.len() == 0,
            }
        }),
{
    if o.role is Some {
        roles_have_their_categories(o.role->0);
    }
}

/// The applications are visited in the given order.
pub proof fn applications_come_in_order(s: AppScanView, windows: Seq<FocusedWindow>, apps: Seq<usize>)
    requires
        s.stage is Apps,
    ensures
        ({
            let next = s.after(windows, ScanReplyView::Apps(Some(apps)));
            &&& apps.len() == 0 ==> next.query() == ScanQuery::Done
            &&& apps.len() > 0 ==> next.query() == ScanQuery::Frames(apps[0]) && next.apps
                == apps.drop_first().reverse()
            &&& next.found == s.found
            &&& s.after(windows, ScanReplyView::Apps(None)).query() == ScanQuery::Done
        }),
{
    if apps.len() > 0 {
        let next = s.after(windows, ScanReplyView::Apps(Some(apps)));
        assert(apps.reverse().last() == apps[0]);
        assert(apps.reverse().drop_last() =~= apps.drop_first().reverse());
    }
}

/// The frames of an application are looked at in the given order; without any, the next application is.
pub proof fn frames_come_in_order(
    s: AppScanView,
    windows: Seq<FocusedWindow>,
    app: usize,
    frames: Seq<usize>,
)
    requires
        s.stage == ScanStageView::Frames(app),
    ensures
        ({
            let next = s.after(windows, ScanReplyView::Frames(Some(frames)));
            &&& frames.len() > 0 ==> next.query() == ScanQuery::Title(frames[0]) && next.frames
                == frames.drop_first().reverse() && next.apps == s.apps
            &&& frames.len() == 0 ==> goes_on(s.apps, Seq::empty(), next)
            &&& goes_on(s.apps, Seq::empty(), s.after(windows, ScanReplyView::Frames(None)))
            &&& next.found == s.found
        }),
{
    if frames.len() > 0 {
        assert(frames.reverse().last() == frames[0]);
        assert(frames.reverse().drop_last() =~= frames.drop_first().reverse());
    }
}

/// Whether a scan goes on with the next one of the frames that are left, or else with the next one of
/// the applications that are left, or else is over. The next one is last.
pub open spec fn goes_on(apps: Seq<usize>, frames: Seq<usize>, next: AppScanView) -> bool {
    if frames.len() > 0 {
        &&& next.query() == ScanQuery::Title(frames.last())
        &&& next.frames == frames.drop_last()
        &&& next.apps == apps
    } else if apps.len() > 0 {
        &&& next.query() == ScanQuery::Frames(apps.last())
        &&& next.apps == apps.drop_last()
    } else {
        next.query() == ScanQuery::Done
    }
}

/// A frame with the title of a window is walked over, from where the first such window is. Any other
/// one, and one that is gone, is passed over.
pub proof fn frames_of_windows_are_walked(
    s: AppScanView,
    windows: Seq<FocusedWindow>,
    frame: usize,
    title: Seq<char>,
    i: int,
)
    requires
        s.stage == ScanStageView::Title(frame),
    ensures
        0 <= i < windows.len() && windows[i].title@ == title && (forall|j: int|
            0 <= j < i ==> (#[trigger] windows[j]).title@ != title) ==> {
            let next = s.after(windows, ScanReplyView::Title(Some(title)));
            &&& next.query() == ScanQuery::Object(Query::State(frame))
            &&& next.stage matches ScanStageView::Walking(walk) && walk.offset_x == windows[i].x
                && walk.offset_y == windows[i].y && walk.found.len() == 0 && walk.pending.len() == 0
            &&& next.apps == s.apps
            &&& next.frames == s.frames
            &&& next.found == s.found
        },
        (forall|j: int| 0 <= j < windows.len() ==> (#[trigger] windows[j]).title@ != title)
            ==> goes_on(s.apps, s.frames, s.after(windows, ScanReplyView::Title(Some(title))))
            && s.after(windows, ScanReplyView::Title(Some(title))).found == s.found,
        goes_on(s.apps, s.frames, s.after(windows, ScanReplyView::Gone)),
        s.after(windows, ScanReplyView::Gone).found == s.found,
{
    if 0 <= i < windows.len() && windows[i].title@ == title && (forall|j: int|
        0 <= j < i ==> (#[trigger] windows[j]).title@ != title) {
        assert(atspi_scan::first_titled(windows, title, i));
        let k = choose|k: int| atspi_scan::first_titled(windows, title, k);
        assert(atspi_scan::first_titled(windows, title, k));
        assert(k == i);
    }
}

/// What a walk has found is kept when it is over, and the scan goes on with the next frame; when the
/// application takes too long, what was found so far is kept, and the scan goes on with the next
/// application.
pub proof fn finds_are_kept(
    s: AppScanView,
    windows: Seq<FocusedWindow>,
    walk: atspi_scan::WalkView,
    reply: ReplyView,
)
    requires
        s.stage == ScanStageView::Walking(walk),
    ensures
        ({
            let next = s.after(windows, ScanReplyView::Object(reply));
            let late = s.after(windows, ScanReplyView::TimedOut);
            &&& walk.after(reply).stage is Done ==> goes_on(s.apps, s.frames, next) && next.found
                == s.found + walk.after(reply).found
            &&& !(walk.after(reply).stage is Done) ==> next == (AppScanView {
                stage: ScanStageView::Walking(walk.after(reply)),
                ..s
            })
            &&& goes_on(s.apps, Seq::empty(), late)
            &&& late.found == s.found + walk.found
        }),
{
}

/// An application that takes too long before a walk has begun is left for the next one.
pub proof fn slow_applications_are_left(s: AppScanView, windows: Seq<FocusedWindow>)
    requires
        s.stage is Frames || s.stage is Title,
    ensures
        goes_on(s.apps, Seq::empty(), s.after(windows, ScanReplyView::TimedOut)),
        s.after(windows, ScanReplyView::TimedOut).found == s.found,
{
}

/// A walk over an object first asks whether it is showing, then for its role; if that is worth a hint
/// and it is showing, for its position, and if that is known, for its name. After that it asks for the
/// children of the object, and goes on with the first of them.
pub proof fn objects_are_asked_in_turn(
    w: atspi_scan::WalkView,
    showing: bool,
    role: u32,
    extents: (i32, i32, i32, i32),
    children: Seq<usize>,
)
    requires
        w.stage == Stage::State,
        w.depth < 40,
        children.len() > 0,
    ensures
        ({
            let at_role = w.after(ReplyView::State(Some(showing)));
            let after_role = at_role.after(ReplyView::Role(Some(role)));
            let after_extents = after_role.after(ReplyView::Extents(Some(extents)));
            let known = extents.2 > 0 && extents.3 > 0 && (extents.0 != 0 || extents.1 != 0);
            &&& w.query() == Query::State(w.current)
            &&& at_role.query() == Query::Role(w.current)
            &&& showing && worth_a_hint(role) is Some ==> {
                &&& after_role.query() == Query::Extents(w.current)
                &&& known ==> after_extents.query() == Query::Name(w.current)
                &&& known ==> after_extents.after(ReplyView::Name(None)).query()
                    == Query::Children(w.current)
                &&& !known ==> after_extents.query() == Query::Children(w.current)
                &&& after_role.after(ReplyView::Extents(None)).query() == Query::Children(w.current)
            }
            &&& !showing || worth_a_hint(role) is None ==> after_role.query() == Query::Children(
                w.current,
            )
            &&& at_role.after(ReplyView::Role(None)).query() == Query::Children(w.current)
            &&& w.pending.len() == 0 ==> w.after(ReplyView::State(None)).query() == Query::Done
            &&& at_role.after(ReplyView::Role(None)).after(
                ReplyView::Children(Some(children)),
            ).query() == Query::State(children[0])
        }),
{
    roles_have_their_categories(role);
}

} // verus!
