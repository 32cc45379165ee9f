//! Interactive elements of the accessibility tree: which of them are worth a hint, and in which
//! order the tree is asked for them.
//!
//! An application under Wayland does not know where its window is, so elements are positioned
//! relative to it; the offset of the window, matched by its title, makes them local to the monitor.
//! An element at exactly `(0, 0)` comes from a toolkit that does not track positions, and is left
//! out.

use vstd::prelude::*;

use crate::active_monitor::FocusedWindow;
use crate::units;

verus! {

/// Numbers of the roles that matter here.
pub const ROLE_CHECK_BOX: u32 = 7;

pub const ROLE_CHECK_MENU_ITEM: u32 = 8;

pub const ROLE_COMBO_BOX: u32 = 11;

pub const ROLE_MENU_ITEM: u32 = 35;

pub const ROLE_PASSWORD_TEXT: u32 = 40;

pub const ROLE_PUSH_BUTTON: u32 = 43;

pub const ROLE_RADIO_BUTTON: u32 = 44;

pub const ROLE_RADIO_MENU_ITEM: u32 = 45;

pub const ROLE_SCROLL_BAR: u32 = 48;

pub const ROLE_SCROLL_PANE: u32 = 49;

pub const ROLE_SLIDER: u32 = 51;

pub const ROLE_SPIN_BUTTON: u32 = 52;

pub const ROLE_TEAROFF_MENU_ITEM: u32 = 59;

pub const ROLE_TERMINAL: u32 = 60;

pub const ROLE_TOGGLE_BUTTON: u32 = 62;

pub const ROLE_VIEWPORT: u32 = 68;

pub const ROLE_ENTRY: u32 = 79;

pub const ROLE_DOCUMENT_FRAME: u32 = 82;

pub const ROLE_LINK: u32 = 88;

pub const ROLE_PUSH_BUTTON_MENU: u32 = 129;

/// How deep the tree is walked.
pub const MAX_DEPTH: usize = 40;

/// How long one application may take, in milliseconds. Applications that are gone leave entries
/// behind that never answer.
pub const APP_SCAN_TIMEOUT_MS: u64 = 1500;

/// What an element is, for the color of its hint.
#[derive(Debug, Clone, Copy, PartialEq, Eq, Structural)]
pub enum Category {
    Button,
    TextField,
    Scrollable,
    Terminal,
    Other,
}

/// An interactive element, in subpixels of the monitor.
#[derive(Debug)]
pub struct Element {
    /// The number of its role.
    pub role: u32,
    pub category: Category,
    pub name: String,
    pub x: i64,
    pub y: i64,
    pub w: i64,
    pub h: i64,
}

/// What an element amounts to.
pub struct ElementView {
    pub role: u32,
    pub category: Category,
    pub name: Seq<char>,
    pub x: i64,
    pub y: i64,
    pub w: i64,
    pub h: i64,
}

impl View for Element {
    type V = ElementView;

    open spec fn view(&self) -> ElementView {
        ElementView {
            role: self.role,
            category: self.category,
            name: self.name@,
            x: self.x,
            y: self.y,
            w: self.w,
            h: self.h,
        }
    }
}

impl Element {
    /// The middle of the element.
    pub fn center(&self) -> (c: (i64, i64))
        ensures
            c.0 == units::sat(self.x + self.w as int / 2),
            c.1 == units::sat(self.y + self.h as int / 2),
    {
        (units::plus(self.x, units::half(self.w)), units::plus(self.y, units::half(self.h)))
    }
}

/// Whether a role is that of a button, or of something that is clicked like one.
pub open spec fn is_button_role(role: u32) -> bool {
    ||| role == ROLE_PUSH_BUTTON
    ||| role == ROLE_TOGGLE_BUTTON
    ||| role == ROLE_RADIO_BUTTON
    ||| role == ROLE_RADIO_MENU_ITEM
    ||| role == ROLE_CHECK_BOX
    ||| role == ROLE_CHECK_MENU_ITEM
    ||| role == ROLE_COMBO_BOX
    ||| role == ROLE_LINK
    ||| role == ROLE_MENU_ITEM
    ||| role == ROLE_TEAROFF_MENU_ITEM
    ||| role == ROLE_PUSH_BUTTON_MENU
    ||| role == ROLE_SLIDER
    ||| role == ROLE_SPIN_BUTTON
}

/// Whether a role is that of something that is scrolled.
pub open spec fn is_scrollable_role(role: u32) -> bool {
    ||| role == ROLE_SCROLL_PANE
    ||| role == ROLE_VIEWPORT
    ||| role == ROLE_DOCUMENT_FRAME
    ||| role == ROLE_SCROLL_BAR
}

/// The category of a role, if it is worth a hint.
pub open spec fn category_of(role: u32) -> Option<Category> {
    if is_button_role(role) {
        Some(Category::Button)
    } else if role == ROLE_ENTRY || role == ROLE_PASSWORD_TEXT {
        Some(Category::TextField)
    } else if is_scrollable_role(role) {
        Some(Category::Scrollable)
    } else if role == ROLE_TERMINAL {
        Some(Category::Terminal)
    } else {
        None
    }
}

/// The category of a role, if it is worth a hint.
pub fn categorize(role: u32) -> (c: Option<Category>)
    ensures
        c == category_of(role),
{
    if role == ROLE_PUSH_BUTTON || role == ROLE_TOGGLE_BUTTON || role == ROLE_RADIO_BUTTON || role
        == ROLE_RADIO_MENU_ITEM || role == ROLE_CHECK_BOX || role == ROLE_CHECK_MENU_ITEM || role
        == ROLE_COMBO_BOX || role == ROLE_LINK || role == ROLE_MENU_ITEM || role
        == ROLE_TEAROFF_MENU_ITEM || role == ROLE_PUSH_BUTTON_MENU || role == ROLE_SLIDER || role
        == ROLE_SPIN_BUTTON {
        Some(Category::Button)
    } else if role == ROLE_ENTRY || role == ROLE_PASSWORD_TEXT {
        Some(Category::TextField)
    } else if role == ROLE_SCROLL_PANE || role == ROLE_VIEWPORT || role == ROLE_DOCUMENT_FRAME
        || role == ROLE_SCROLL_BAR {
        Some(Category::Scrollable)
    } else if role == ROLE_TERMINAL {
        Some(Category::Terminal)
    } else {
        None
    }
}

/// Whether `i` is the first window of that title.
pub open spec fn first_titled(windows: Seq<FocusedWindow>, title: Seq<char>, i: int) -> bool {
    &&& 0 <= i < windows.len()
    &&& windows[i].title@ == title
    &&& forall|j: int| 0 <= j < i ==> (#[trigger] windows[j]).title@ != title
}

/// The window that an application's frame belongs to, by its title. Frames of other monitors have
/// none.
pub fn match_window(windows: &[FocusedWindow], title: &String) -> (r: Option<usize>)
    ensures
        match r {
            Some(i) => first_titled(windows@, title@, i as int),
            None => forall|j: int|
                0 <= j < windows@.len() ==> (#[trigger] windows@[j]).title@ != title@,
        },
{
    let mut i: usize = 0;
    while i < windows.len()
        invariant
            i <= windows@.len(),
            forall|j: int| 0 <= j < i ==> (#[trigger] windows@[j]).title@ != title@,
        decreases windows.len() - i,
    {
        if windows[i].title == *title {
            return Some(i);
        }
        i = i + 1;
    }
    None
}

/// A question to the accessibility tree about an object, which the asker refers to by number.
#[derive(Debug, Clone, Copy, PartialEq, Eq, Structural)]
pub enum Query {
    /// Whether the object is showing.
    State(usize),
    /// Its role.
    Role(usize),
    /// Its position and size.
    Extents(usize),
    /// Its name.
    Name(usize),
    /// Its children.
    Children(usize),
    /// Nothing more to ask.
    Done,
}

/// An answer. `None` stands for an object that does not answer, or not with that.
#[derive(Debug)]
pub enum Reply {
    State(Option<bool>),
    Role(Option<u32>),
    Extents(Option<(i32, i32, i32, i32)>),
    Name(Option<String>),
    Children(Option<Vec<usize>>),
}

/// What an answer amounts to.
pub enum ReplyView {
    State(Option<bool>),
    Role(Option<u32>),
    Extents(Option<(i32, i32, i32, i32)>),
    Name(Option<Seq<char>>),
    Children(Option<Seq<usize>>),
}

impl View for Reply {
    type V = ReplyView;

    open spec fn view(&self) -> ReplyView {
        match self {
            Reply::State(s) => ReplyView::State(*s),
            Reply::Role(r) => ReplyView::Role(*r),
            Reply::Extents(e) => ReplyView::Extents(*e),
            Reply::Name(Some(n)) => ReplyView::Name(Some(n@)),
            Reply::Name(None) => ReplyView::Name(None),
            Reply::Children(Some(c)) => ReplyView::Children(Some(c@)),
            Reply::Children(None) => ReplyView::Children(None),
        }
    }
}

/// What is to be asked next of the object at hand.
#[derive(Debug, Clone, Copy)]
pub enum Stage {
    State,
    Role { showing: bool },
    Extents { role: u32, category: Category },
    Name { role: u32, category: Category, extents: (i32, i32, i32, i32) },
    Children,
    Done,
}

/// A walk over the tree below one frame.
#[derive(Debug)]
pub struct Walk {
    /// The object at hand, and how deep it lies.
    pub current: usize,
    pub depth: usize,
    pub stage: Stage,
    /// The objects still to be visited with their depths, the next one last.
    pub pending: Vec<(usize, usize)>,
    /// The position of the frame's window.
    pub offset_x: i64,
    pub offset_y: i64,
    /// The elements found so far.
    pub found: Vec<Element>,
}

/// What a walk amounts to.
pub struct WalkView {
    pub current: usize,
    pub depth: usize,
    pub stage: Stage,
    pub pending: Seq<(usize, usize)>,
    pub offset_x: i64,
    pub offset_y: i64,
    pub found: Seq<ElementView>,
}

/// What elements amount to.
pub open spec fn elements_view(s: Seq<Element>) -> Seq<ElementView> {
    Seq::new(s.len(), |i: int| s[i]@)
}

impl View for Walk {
    type V = WalkView;

    open spec fn view(&self) -> WalkView {
        WalkView {
            current: self.current,
            depth: self.depth,
            stage: self.stage,
            pending: self.pending@,
            offset_x: self.offset_x,
            offset_y: self.offset_y,
            found: elements_view(self.found@),
        }
    }
}

/// The element that an object with the given answers is.
pub open spec fn element_of(
    role: u32,
    category: Category,
    name: Seq<char>,
    extents: (i32, i32, i32, i32),
    offset_x: i64,
    offset_y: i64,
) -> ElementView {
    ElementView {
        role,
        category,
        name,
        x: units::sat(extents.0 * units::SUBPIXELS + offset_x),
        y: units::sat(extents.1 * units::SUBPIXELS + offset_y),
        w: (extents.2 * units::SUBPIXELS) as i64,
        h: (extents.3 * units::SUBPIXELS) as i64,
    }
}

/// Whether a position and a size can be trusted: the size is not empty, and the position is not the
/// one that stands for an unknown one.
pub open spec fn placed(extents: (i32, i32, i32, i32)) -> bool {
    extents.2 > 0 && extents.3 > 0 && (extents.0 != 0 || extents.1 != 0)
}

impl WalkView {
    /// The walk with the next pending object at hand.
    pub open spec fn to_next(self) -> WalkView {
        if self.pending.len() == 0 {
            WalkView { stage: Stage::Done, ..self }
        } else {
            WalkView {
                current: self.pending.last().0,
                depth: self.pending.last().1,
                stage: Stage::State,
                pending: self.pending.drop_last(),
                ..self
            }
        }
    }

    /// What the walk asks next.
    pub open spec fn query(self) -> Query {
        match self.stage {
            Stage::State => Query::State(self.current),
            Stage::Role { .. } => Query::Role(self.current),
            Stage::Extents { .. } => Query::Extents(self.current),
            Stage::Name { .. } => Query::Name(self.current),
            Stage::Children => Query::Children(self.current),
            Stage::Done => Query::Done,
        }
    }

    /// The walk after an answer. An answer to a question that was not asked changes nothing.
    ///
    /// An object that does not say whether it is showing is left out with everything below it; one
    /// that is not showing is not recorded, but its children are still visited, since applications
    /// and frames often have no such state at all.
    pub open spec fn after(self, reply: ReplyView) -> WalkView {
        match (self.stage, reply) {
            (Stage::State, ReplyView::State(None)) => self.to_next(),
            (Stage::State, ReplyView::State(Some(showing))) => WalkView {
                stage: Stage::Role { showing },
                ..self
            },
            (Stage::Role { showing }, ReplyView::Role(role)) => match role {
                Some(role) if showing && category_of(role) is Some => WalkView {
                    stage: Stage::Extents { role, category: category_of(role)->0 },
                    ..self
                },
                _ => WalkView { stage: Stage::Children, ..self },
            },
            (Stage::Extents { role, category }, ReplyView::Extents(extents)) => match extents {
                Some(extents) if placed(extents) => WalkView {
                    stage: Stage::Name { role, category, extents },
                    ..self
                },
                _ => WalkView { stage: Stage::Children, ..self },
            },
            (Stage::Name { role, category, extents }, ReplyView::Name(name)) => WalkView {
                stage: Stage::Children,
                found: self.found.push(
                    element_of(
                        role,
                        category,
                        name_or_empty(name),
                        extents,
                        self.offset_x,
                        self.offset_y,
                    ),
                ),
                ..self
            },
            (Stage::Children, ReplyView::Children(children)) => WalkView {
                pending: self.pending + below(children, self.depth),
                ..self
            }.to_next(),
            _ => self,
        }
    }
}

/// A name, or none.
pub open spec fn name_or_empty(name: Option<Seq<char>>) -> Seq<char> {
    match name {
        Some(name) => name,
        None => Seq::empty(),
    }
}

/// The children of an object at `depth` that are visited, the first one last.
pub open spec fn below(children: Option<Seq<usize>>, depth: usize) -> Seq<(usize, usize)> {
    match children {
        Some(children) if depth < MAX_DEPTH => Seq::new(
            children.len(),
            |i: int| (children[children.len() - 1 - i], (depth + 1) as usize),
        ),
        _ => Seq::empty(),
    }
}

impl Walk {
    /// A walk from a frame, which lies in a window at the given position.
    pub fn new(frame: usize, offset_x: i64, offset_y: i64) -> (w: Walk)
        ensures
            w@ == walk_start(frame, offset_x, offset_y),
    {
        let w: Walk = Walk {
            current: frame,
            depth: 0,
            stage: Stage::State,
            pending: Vec::new(),
            offset_x,
            offset_y,
            found: Vec::new(),
        };
        proof {
            assert(w@.pending =~= Seq::<(usize, usize)>::empty());
            assert(w@.found =~= Seq::<ElementView>::empty());
        }
        w
    }

    /// What to ask next.
    pub fn next(&self) -> (q: Query)
        ensures
            q == self@.query(),
    {
        match self.stage {
            Stage::State => Query::State(self.current),
            Stage::Role { .. } => Query::Role(self.current),
            Stage::Extents { .. } => Query::Extents(self.current),
            Stage::Name { .. } => Query::Name(self.current),
            Stage::Children => Query::Children(self.current),
            Stage::Done => Query::Done,
        }
    }

    fn advance(&mut self)
        ensures
            final(self)@ == old(self)@.to_next(),
            final(self).found == old(self).found,
    {
        match self.pending.pop() {
            Some((object, depth)) => {
                self.current = object;
                self.depth = depth;
                self.stage = Stage::State;
            },
            None => {
                self.stage = Stage::Done;
            },
        }
        proof {
            if old(self).pending@.len() > 0 {
                assert(self.pending@ =~= old(self).pending@.drop_last());
            } else {
                assert(self.pending@ =~= old(self).pending@);
            }
        }
    }

    fn push_children(&mut self, children: Option<Vec<usize>>)
        ensures
            final(self)@ == (WalkView {
                pending: old(self)@.pending + below(
                    match children {
                        Some(c) => Some(c@),
                        None => None,
                    },
                    old(self).depth,
                ),
                ..old(self)@
            }),
            final(self).found == old(self).found,
    {
        let ghost before = self.pending@;
        assert(before + Seq::<(usize, usize)>::empty() =~= before);
        if let Some(children) = children {
            if self.depth < MAX_DEPTH {
                let ghost all = below(Some(children@), self.depth);
                let n: usize = children.len();
                let mut i: usize = 0;
                assert(before + all.take(0) =~= before);
                while i < n
                    invariant
                        i <= n,
                        n == children@.len(),
                        self.depth < MAX_DEPTH,
                        all == below(Some(children@), self.depth),
                        self.pending@ == before + all.take(i as int),
                        self.current == old(self).current,
                        self.depth == old(self).depth,
                        self.stage == old(self).stage,
                        self.offset_x == old(self).offset_x,
                        self.offset_y == old(self).offset_y,
                        self.found == old(self).found,
                    decreases n - i,
                {
                    self.pending.push((children[n - 1 - i], self.depth + 1));
                    assert(self.pending@ =~= before + all.take(i + 1));
                    i = i + 1;
                }
                assert(all.take(n as int) =~= all);
            }
        }
    }

    /// Takes in an answer.
    pub fn reply(&mut self, reply: Reply)
        ensures
            final(self)@ == old(self)@.after(reply@),
    {
        let stage: Stage = self.stage;
        match reply {
            Reply::State(state) => {
                if let Stage::State = stage {
                    match state {
                        None => {
                            self.advance();
                        },
                        Some(showing) => {
                            self.stage = Stage::Role { showing };
                        },
                    }
                }
            },
            Reply::Role(role) => {
                if let Stage::Role { showing } = stage {
                    let mut next: Stage = Stage::Children;
                    if let Some(role) = role {
                        if showing {
                            if let Some(category) = categorize(role) {
                                next = Stage::Extents { role, category };
                            }
                        }
                    }
                    self.stage = next;
                }
            },
            Reply::Extents(extents) => {
                if let Stage::Extents { role, category } = stage {
                    let mut next: Stage = Stage::Children;
                    if let Some((x, y, w, h)) = extents {
                        if w > 0 && h > 0 && (x != 0 || y != 0) {
                            next = Stage::Name { role, category, extents: (x, y, w, h) };
                        }
                    }
                    self.stage = next;
                }
            },
            Reply::Name(name) => {
                if let Stage::Name { role, category, extents } = stage {
                    let ghost before = self.found@;
                    let name: String = match name {
                        Some(name) => name,
                        None => String::new(),
                    };
                    let e: Element = Element {
                        role,
                        category,
                        name,
                        x: units::plus(units::from_px(extents.0), self.offset_x),
                        y: units::plus(units::from_px(extents.1), self.offset_y),
                        w: units::from_px(extents.2),
                        h: units::from_px(extents.3),
                    };
                    proof {
                        if reply@->Name_0 is None {
                            assert(e@.name =~= Seq::<char>::empty());
                        }
                    }
                    self.found.push(e);
                    self.stage = Stage::Children;
                    assert(elements_view(self.found@) =~= elements_view(before).push(e@));
                }
            },
            Reply::Children(children) => {
                if let Stage::Children = stage {
                    self.push_children(children);
                    self.advance();
                }
            },
        }
    }
}

/// A walk that has asked nothing yet.
pub open spec fn walk_start(frame: usize, offset_x: i64, offset_y: i64) -> WalkView {
    WalkView {
        current: frame,
        depth: 0,
        stage: Stage::State,
        pending: Seq::empty(),
        offset_x,
        offset_y,
        found: Seq::empty(),
    }
}

/// What an object answers to each question.
pub struct ObjectView {
    pub state: Option<bool>,
    pub role: Option<u32>,
    pub extents: Option<(i32, i32, i32, i32)>,
    pub name: Option<Seq<char>>,
    pub children: Option<Seq<usize>>,
}

/// What the objects of a tree answer.
pub type Tree = spec_fn(usize) -> ObjectView;

/// The answer to a question.
pub open spec fn answer(tree: Tree, query: Query) -> ReplyView {
    match query {
        Query::State(o) => ReplyView::State(tree(o).state),
        Query::Role(o) => ReplyView::Role(tree(o).role),
        Query::Extents(o) => ReplyView::Extents(tree(o).extents),
        Query::Name(o) => ReplyView::Name(tree(o).name),
        Query::Children(o) => ReplyView::Children(tree(o).children),
        Query::Done => ReplyView::State(None),
    }
}

/// The element that an object of the given role and category is, if its position can be trusted.
pub open spec fn with_extents(
    o: ObjectView,
    role: u32,
    category: Category,
    offset_x: i64,
    offset_y: i64,
) -> Seq<ElementView> {
    match o.extents {
        Some(extents) if placed(extents) => seq![
            element_of(role, category, name_or_empty(o.name), extents, offset_x, offset_y),
        ],
        _ => Seq::empty(),
    }
}

/// The element that an object is, if it is one: it is showing, its role is worth a hint, and its
/// position can be trusted.
pub open spec fn own_element(
    o: ObjectView,
    showing: bool,
    offset_x: i64,
    offset_y: i64,
) -> Seq<ElementView> {
    match o.role {
        Some(role) if showing && category_of(role) is Some => with_extents(
            o,
            role,
            category_of(role)->0,
            offset_x,
            offset_y,
        ),
        _ => Seq::empty(),
    }
}

/// The elements below an object, from the one itself on, each before those below it.
pub open spec fn elements_from(
    tree: Tree,
    object: usize,
    depth: nat,
    offset_x: i64,
    offset_y: i64,
) -> Seq<ElementView>
    decreases MAX_DEPTH + 1 - depth, 1nat,
{
    match tree(object).state {
        Some(showing) if depth <= MAX_DEPTH => own_element(
            tree(object),
            showing,
            offset_x,
            offset_y,
        ) + elements_below(tree, tree(object).children, depth, offset_x, offset_y),
        _ => Seq::empty(),
    }
}

/// The elements below an object without the one itself.
pub open spec fn elements_below(
    tree: Tree,
    children: Option<Seq<usize>>,
    depth: nat,
    offset_x: i64,
    offset_y: i64,
) -> Seq<ElementView>
    decreases MAX_DEPTH + 1 - depth, 0nat,
{
    match children {
        Some(children) if depth < MAX_DEPTH => elements_of_all(
            tree,
            children,
            depth + 1,
            offset_x,
            offset_y,
        ),
        _ => Seq::empty(),
    }
}

/// The elements from several objects on, one after the other.
pub open spec fn elements_of_all(
    tree: Tree,
    objects: Seq<usize>,
    depth: nat,
    offset_x: i64,
    offset_y: i64,
) -> Seq<ElementView>
    decreases MAX_DEPTH + 1 - depth, objects.len() + 2,
{
    if objects.len() == 0 {
        Seq::empty()
    } else {
        elements_from(tree, objects[0], depth, offset_x, offset_y) + elements_of_all(
            tree,
            objects.drop_first(),
            depth,
            offset_x,
            offset_y,
        )
    }
}

/// The elements that are still to come from the pending objects.
pub open spec fn elements_pending(
    tree: Tree,
    pending: Seq<(usize, usize)>,
    offset_x: i64,
    offset_y: i64,
) -> Seq<ElementView>
    decreases pending.len(),
{
    if pending.len() == 0 {
        Seq::empty()
    } else {
        elements_from(tree, pending.last().0, pending.last().1 as nat, offset_x, offset_y)
            + elements_pending(tree, pending.drop_last(), offset_x, offset_y)
    }
}

/// The elements that are still to come from the object at hand.
pub open spec fn elements_at_hand(tree: Tree, w: WalkView) -> Seq<ElementView> {
    let o = tree(w.current);
    let (x, y) = (w.offset_x, w.offset_y);
    let children = elements_below(tree, o.children, w.depth as nat, x, y);
    match w.stage {
        Stage::State => elements_from(tree, w.current, w.depth as nat, x, y),
        Stage::Role { showing } => own_element(o, showing, x, y) + children,
        Stage::Extents { role, category } => with_extents(o, role, category, x, y) + children,
        Stage::Name { role, category, extents } => seq![
            element_of(role, category, name_or_empty(o.name), extents, x, y),
        ] + children,
        Stage::Children => children,
        Stage::Done => Seq::empty(),
    }
}

/// All that a walk will have found: what it has found, what the object at hand gives, and what the
/// pending ones give.
pub open spec fn outcome(tree: Tree, w: WalkView) -> Seq<ElementView> {
    if w.stage is Done {
        w.found
    } else {
        w.found + elements_at_hand(tree, w) + elements_pending(
            tree,
            w.pending,
            w.offset_x,
            w.offset_y,
        )
    }
}

proof fn lemma_pending_children(
    tree: Tree,
    pending: Seq<(usize, usize)>,
    children: Seq<usize>,
    depth: usize,
    offset_x: i64,
    offset_y: i64,
)
    requires
        depth < MAX_DEPTH,
    ensures
        elements_pending(tree, pending + below(Some(children), depth), offset_x, offset_y)
            == elements_of_all(tree, children, (depth + 1) as nat, offset_x, offset_y)
            + elements_pending(tree, pending, offset_x, offset_y),
    decreases children.len(),
{
    let all = pending + below(Some(children), depth);
    if children.len() == 0 {
        assert(all =~= pending);
        assert(Seq::<ElementView>::empty() + elements_pending(tree, pending, offset_x, offset_y)
            =~= elements_pending(tree, pending, offset_x, offset_y));
    } else {
        let rest = children.drop_first();
        lemma_pending_children(tree, pending, rest, depth, offset_x, offset_y);
        assert(all.last() == (children[0], (depth + 1) as usize));
        assert(all.drop_last() =~= pending + below(Some(rest), depth));
        let first = elements_from(tree, children[0], (depth + 1) as nat, offset_x, offset_y);
        let others = elements_of_all(tree, rest, (depth + 1) as nat, offset_x, offset_y);
        let behind = elements_pending(tree, pending, offset_x, offset_y);
        assert(first + (others + behind) =~= (first + others) + behind);
    }
}

proof fn lemma_to_next(tree: Tree, w: WalkView)
    requires
        !(w.stage is Done),
    ensures
        outcome(tree, w.to_next()) == w.found + elements_pending(
            tree,
            w.pending,
            w.offset_x,
            w.offset_y,
        ),
{
    if w.pending.len() == 0 {
        assert(w.found + Seq::<ElementView>::empty() =~= w.found);
    } else {
        let n = w.to_next();
        let here = elements_at_hand(tree, n);
        let behind = elements_pending(tree, n.pending, w.offset_x, w.offset_y);
        assert((w.found + here) + behind =~= w.found + (here + behind));
    }
}

/// Whether neither the object at hand nor any that is still to be visited lies deeper than
/// [`MAX_DEPTH`].
pub open spec fn shallow(w: WalkView) -> bool {
    &&& w.depth <= MAX_DEPTH
    &&& forall|i: int| 0 <= i < w.pending.len() ==> (#[trigger] w.pending[i]).1 <= MAX_DEPTH
}

/// Each answer brings a walk nearer to the same outcome.
pub proof fn answers_keep_the_outcome(tree: Tree, w: WalkView)
    requires
        shallow(w),
        !(w.stage is Done),
    ensures
        outcome(tree, w.after(answer(tree, w.query()))) == outcome(tree, w),
{
    let o = tree(w.current);
    let (x, y) = (w.offset_x, w.offset_y);
    let behind = elements_pending(tree, w.pending, x, y);
    let children = elements_below(tree, o.children, w.depth as nat, x, y);
    match w.stage {
        Stage::State => {
            if o.state is None {
                lemma_to_next(tree, w);
                assert(w.found + Seq::<ElementView>::empty() + behind =~= w.found + behind);
            }
        },
        Stage::Role { showing } => {
            assert(Seq::<ElementView>::empty() + children =~= children);
        },
        Stage::Extents { role, category } => {
            assert(Seq::<ElementView>::empty() + children =~= children);
        },
        Stage::Name { role, category, extents } => {
            let e = element_of(role, category, name_or_empty(o.name), extents, x, y);
            assert(w.found.push(e) + children + behind =~= w.found + (seq![e] + children) + behind);
        },
        Stage::Children => {
            let pushed = WalkView { pending: w.pending + below(o.children, w.depth), ..w };
            lemma_to_next(tree, pushed);
            match o.children {
                Some(c) if w.depth < MAX_DEPTH => {
                    lemma_pending_children(tree, w.pending, c, w.depth, x, y);
                    assert(w.found + (children + behind) =~= w.found + children + behind);
                },
                _ => {
                    assert(pushed.pending =~= w.pending);
                    assert(w.found + Seq::<ElementView>::empty() + behind =~= w.found + behind);
                },
            }
        },
        Stage::Done => {},
    }
}

/// A walk from a frame starts out for the elements below that frame, each before those below it,
/// and has found exactly these once it has nothing more to ask.
pub proof fn a_walk_finds_the_elements_in_order(
    tree: Tree,
    frame: usize,
    offset_x: i64,
    offset_y: i64,
    w: WalkView,
)
    ensures
        outcome(tree, walk_start(frame, offset_x, offset_y)) == elements_from(
            tree,
            frame,
            0,
            offset_x,
            offset_y,
        ),
        w.query() == Query::Done ==> outcome(tree, w) == w.found,
{
    let all = elements_from(tree, frame, 0, offset_x, offset_y);
    assert(Seq::<ElementView>::empty() + all + Seq::<ElementView>::empty() =~= all);
}

/// However deep a tree is, a walk goes no deeper than [`MAX_DEPTH`].
pub proof fn walks_stay_within_the_depth(
    w: WalkView,
    reply: ReplyView,
    frame: usize,
    offset_x: i64,
    offset_y: i64,
)
    requires
        shallow(w),
    ensures
        shallow(w.after(reply)),
        shallow(walk_start(frame, offset_x, offset_y)),
{
    if let ReplyView::Children(children) = reply {
        let more = below(children, w.depth);
        let all = w.pending + more;
        assert forall|i: int| 0 <= i < all.len() implies (#[trigger] all[i]).1 <= MAX_DEPTH by {
            if i < w.pending.len() {
                assert(all[i] == w.pending[i]);
            } else {
                assert(all[i] == more[i - w.pending.len()]);
            }
        }
    }
}

} // verus!
