//! The scan of all applications for elements: application by application, frame by frame.

use vstd::prelude::*;

use crate::active_monitor::FocusedWindow;
use crate::atspi_scan::{
    self, Element, ElementView, Query, Reply, ReplyView, Stage, Walk, WalkView,
};

verus! {

/// A question to the accessibility tree. Applications, frames and objects are referred to by number.
#[derive(Debug, Clone, Copy, PartialEq, Eq, Structural)]
pub enum ScanQuery {
    /// The applications.
    Apps,
    /// The frames of an application.
    Frames(usize),
    /// The title of a frame.
    Title(usize),
    /// Something about an object below a frame.
    Object(Query),
    /// Nothing more to ask.
    Done,
}

/// An answer, or what came instead of one.
#[derive(Debug)]
pub enum ScanReply {
    Apps(Option<Vec<usize>>),
    Frames(Option<Vec<usize>>),
    Title(Option<String>),
    /// The frame is not there any more.
    Gone,
    Object(Reply),
    /// The application has taken longer than [`atspi_scan::APP_SCAN_TIMEOUT_MS`].
    TimedOut,
}

/// What an answer amounts to.
pub enum ScanReplyView {
    Apps(Option<Seq<usize>>),
    Frames(Option<Seq<usize>>),
    Title(Option<Seq<char>>),
    Gone,
    Object(ReplyView),
    TimedOut,
}

/// What a list amounts to, if there is one.
pub open spec fn listed(v: Option<Vec<usize>>) -> Option<Seq<usize>> {
    match v {
        Some(v) => Some(v@),
        None => None,
    }
}

impl View for ScanReply {
    type V = ScanReplyView;

    open spec fn view(&self) -> ScanReplyView {
        match self {
            ScanReply::Apps(apps) => ScanReplyView::Apps(listed(*apps)),
            ScanReply::Frames(frames) => ScanReplyView::Frames(listed(*frames)),
            ScanReply::Title(Some(title)) => ScanReplyView::Title(Some(title@)),
            ScanReply::Title(None) => ScanReplyView::Title(None),
            ScanReply::Gone => ScanReplyView::Gone,
            ScanReply::Object(reply) => ScanReplyView::Object(reply@),
            ScanReply::TimedOut => ScanReplyView::TimedOut,
        }
    }
}

/// What a scan is at.
#[derive(Debug)]
pub enum ScanStage {
    Apps,
    Frames(usize),
    Title(usize),
    Walking(Walk),
    Done,
}

/// What that amounts to.
pub enum ScanStageView {
    Apps,
    Frames(usize),
    Title(usize),
    Walking(WalkView),
    Done,
}

impl View for ScanStage {
    type V = ScanStageView;

    open spec fn view(&self) -> ScanStageView {
        match self {
            ScanStage::Apps => ScanStageView::Apps,
            ScanStage::Frames(app) => ScanStageView::Frames(*app),
            ScanStage::Title(frame) => ScanStageView::Title(*frame),
            ScanStage::Walking(walk) => ScanStageView::Walking(walk@),
            ScanStage::Done => ScanStageView::Done,
        }
    }
}

/// A scan of all applications.
#[derive(Debug)]
pub struct AppScan {
    pub stage: ScanStage,
    /// The applications still to come, and the frames of the one at hand, the next one last.
    pub apps: Vec<usize>,
    pub frames: Vec<usize>,
    /// The elements of the frames that are done with.
    pub found: Vec<Element>,
}

/// What a scan amounts to.
pub struct AppScanView {
    pub stage: ScanStageView,
    pub apps: Seq<usize>,
    pub frames: Seq<usize>,
    pub found: Seq<ElementView>,
}

impl View for AppScan {
    type V = AppScanView;

    open spec fn view(&self) -> AppScanView {
        AppScanView {
            stage: self.stage@,
            apps: self.apps@,
            frames: self.frames@,
            found: atspi_scan::elements_view(self.found@),
        }
    }
}

/// A list with its first item last; nothing, if there is none.
pub open spec fn queued(list: Option<Seq<usize>>) -> Seq<usize> {
    match list {
        Some(list) => list.reverse(),
        None => Seq::empty(),
    }
}

/// The first window of a title.
pub open spec fn window_titled(windows: Seq<FocusedWindow>, title: Seq<char>) -> Option<int> {
    if exists|i: int| atspi_scan::first_titled(windows, title, i) {
        Some(choose|i: int| atspi_scan::first_titled(windows, title, i))
    } else {
        None
    }
}

impl AppScanView {
    /// The scan at the next frame of the application at hand, or at the next application.
    pub open spec fn to_next_frame(self) -> AppScanView {
        if self.frames.len() == 0 {
            self.to_next_app()
        } else {
            AppScanView {
                stage: ScanStageView::Title(self.frames.last()),
                frames: self.frames.drop_last(),
                ..self
            }
        }
    }

    /// The scan at the next application, if there is one.
    pub open spec fn to_next_app(self) -> AppScanView {
        if self.apps.len() == 0 {
            AppScanView { stage: ScanStageView::Done, frames: Seq::empty(), ..self }
        } else {
            AppScanView {
                stage: ScanStageView::Frames(self.apps.last()),
                apps: self.apps.drop_last(),
                frames: Seq::empty(),
                ..self
            }
        }
    }

    /// What the scan asks next.
    pub open spec fn query(self) -> ScanQuery {
        match self.stage {
            ScanStageView::Apps => ScanQuery::Apps,
            ScanStageView::Frames(app) => ScanQuery::Frames(app),
            ScanStageView::Title(frame) => ScanQuery::Title(frame),
            ScanStageView::Walking(walk) => ScanQuery::Object(walk.query()),
            ScanStageView::Done => ScanQuery::Done,
        }
    }

    /// The scan with what a walk has found so far.
    pub open spec fn gathered(self) -> AppScanView {
        match self.stage {
            ScanStageView::Walking(walk) => AppScanView { found: self.found + walk.found, ..self },
            _ => self,
        }
    }

    /// The scan after an answer. An answer to a question that was not asked changes nothing.
    ///
    /// Only frames that have the title of one of the windows are walked over. An application that
    /// takes too long is left; what was found in it stays.
    pub open spec fn after(self, windows: Seq<FocusedWindow>, reply: ScanReplyView) -> AppScanView {
        match (self.stage, reply) {
            (ScanStageView::Apps, ScanReplyView::Apps(apps)) => AppScanView {
                apps: queued(apps),
                ..self
            }.to_next_app(),
            (ScanStageView::Frames(_), ScanReplyView::Frames(frames)) => AppScanView {
                frames: queued(frames),
                ..self
            }.to_next_frame(),
            (ScanStageView::Title(frame), ScanReplyView::Title(title)) => match window_titled(
                windows,
                atspi_scan::name_or_empty(title),
            ) {
                Some(i) => AppScanView {
                    stage: ScanStageView::Walking(
                        atspi_scan::walk_start(frame, windows[i].x, windows[i].y),
                    ),
                    ..self
                },
                None => self.to_next_frame(),
            },
            (ScanStageView::Title(_), ScanReplyView::Gone) => self.to_next_frame(),
            (ScanStageView::Walking(walk), ScanReplyView::Object(reply)) => {
                let next = AppScanView {
                    stage: ScanStageView::Walking(walk.after(reply)),
                    ..self
                };
                if walk.after(reply).stage is Done {
                    next.gathered().to_next_frame()
                } else {
                    next
                }
            },
            (ScanStageView::Apps, _) | (ScanStageView::Done, _) => self,
            (_, ScanReplyView::TimedOut) => self.gathered().to_next_app(),
            _ => self,
        }
    }
}

/// A scan that has not asked anything yet.
pub open spec fn scan_start() -> AppScanView {
    AppScanView {
        stage: ScanStageView::Apps,
        apps: Seq::empty(),
        frames: Seq::empty(),
        found: Seq::empty(),
    }
}

fn queue(list: Option<Vec<usize>>) -> (q: Vec<usize>)
    ensures
        q@ == queued(listed(list)),
{
    let mut q: Vec<usize> = Vec::new();
    if let Some(list) = list {
        let n: usize = list.len();
        let mut i: usize = 0;
        while i < n
            invariant
                i <= n,
                n == list@.len(),
                q@.len() == i,
                forall|k: int| 0 <= k < i ==> #[trigger] q@[k] == list@[n - 1 - k],
            decreases n - i,
        {
            q.push(list[n - 1 - i]);
            i = i + 1;
        }
        assert(q@ =~= list@.reverse());
    } else {
        assert(q@ =~= Seq::<usize>::empty());
    }
    q
}

fn gather(found: &mut Vec<Element>, more: Vec<Element>)
    ensures
        atspi_scan::elements_view(final(found)@) == atspi_scan::elements_view(old(found)@)
            + atspi_scan::elements_view(more@),
{
    let ghost before = found@;
    let mut more: Vec<Element> = more;
    let ghost added = more@;
    found.append(&mut more);
    assert(atspi_scan::elements_view(found@) =~= atspi_scan::elements_view(before)
        + atspi_scan::elements_view(added));
}

impl AppScan {
    /// A scan that has not asked anything yet.
    pub fn new() -> (s: AppScan)
        ensures
            s@ == scan_start(),
    {
        let s: AppScan = AppScan {
            stage: ScanStage::Apps,
            apps: Vec::new(),
            frames: Vec::new(),
            found: Vec::new(),
        };
        proof {
            assert(s@.apps =~= Seq::<usize>::empty());
            assert(s@.frames =~= Seq::<usize>::empty());
            assert(s@.found =~= Seq::<ElementView>::empty());
        }
        s
    }

    /// What to ask next.
    pub fn next(&self) -> (q: ScanQuery)
        ensures
            q == self@.query(),
    {
        match &self.stage {
            ScanStage::Apps => ScanQuery::Apps,
            ScanStage::Frames(app) => ScanQuery::Frames(*app),
            ScanStage::Title(frame) => ScanQuery::Title(*frame),
            ScanStage::Walking(walk) => ScanQuery::Object(walk.next()),
            ScanStage::Done => ScanQuery::Done,
        }
    }

    fn advance_app(&mut self)
        ensures
            final(self)@ == old(self)@.to_next_app(),
    {
        self.frames = Vec::new();
        assert(self.frames@ =~= Seq::<usize>::empty());
        match self.apps.pop() {
            Some(app) => {
                self.stage = ScanStage::Frames(app);
            },
            None => {
                self.stage = ScanStage::Done;
            },
        }
        proof {
            if old(self).apps@.len() > 0 {
                assert(self.apps@ =~= old(self).apps@.drop_last());
            } else {
                assert(self.apps@ =~= old(self).apps@);
            }
        }
    }

    fn advance_frame(&mut self)
        ensures
            final(self)@ == old(self)@.to_next_frame(),
    {
        if self.frames.len() == 0 {
            self.advance_app();
            return;
        }
        let ghost before = self.frames@;
        match self.frames.pop() {
            Some(frame) => {
                self.stage = ScanStage::Title(frame);
            },
            None => {},
        }
        assert(self.frames@ =~= before.drop_last());
    }

    /// Takes in an answer. The windows are those of the monitor that is scanned.
    pub fn reply(&mut self, windows: &[FocusedWindow], reply: ScanReply)
        ensures
            final(self)@ == old(self)@.after(windows@, reply@),
    {
        let ghost before = self@;
        let ghost answer = reply@;
        let mut stage: ScanStage = ScanStage::Done;
        std::mem::swap(&mut stage, &mut self.stage);
        match (stage, reply) {
            (ScanStage::Apps, ScanReply::Apps(apps)) => {
                self.apps = queue(apps);
                self.advance_app();
            },
            (ScanStage::Frames(_), ScanReply::Frames(frames)) => {
                self.frames = queue(frames);
                self.advance_frame();
            },
            (ScanStage::Title(frame), ScanReply::Title(title)) => {
                let title: String = match title {
                    Some(title) => title,
                    None => String::new(),
                };
                match atspi_scan::match_window(windows, &title) {
                    Some(i) => {
                        let w: &FocusedWindow = &windows[i];
                        self.stage = ScanStage::Walking(Walk::new(frame, w.x, w.y));
                    },
                    None => {
                        self.advance_frame();
                    },
                }
            },
            (ScanStage::Title(_), ScanReply::Gone) => {
                self.advance_frame();
            },
            (ScanStage::Walking(walk), ScanReply::Object(reply)) => {
                let mut walk: Walk = walk;
                walk.reply(reply);
                let done: bool = match walk.stage {
                    Stage::Done => true,
                    _ => false,
                };
                if done {
                    gather(&mut self.found, walk.found);
                    self.advance_frame();
                } else {
                    self.stage = ScanStage::Walking(walk);
                }
            },
            (ScanStage::Walking(walk), ScanReply::TimedOut) => {
                gather(&mut self.found, walk.found);
                self.advance_app();
            },
            (ScanStage::Frames(_), ScanReply::TimedOut) => {
                self.advance_app();
            },
            (ScanStage::Title(_), ScanReply::TimedOut) => {
                self.advance_app();
            },
            (stage, _) => {
                self.stage = stage;
            },
        }
    }
}

/// Nothing that was found is lost again, whatever is answered or fails to be: what is found after an
/// answer begins with what was found before it.
pub proof fn nothing_found_is_lost(
    s: AppScanView,
    windows: Seq<FocusedWindow>,
    reply: ScanReplyView,
)
    ensures
        s.gathered().found.is_prefix_of(s.after(windows, reply).gathered().found),
{
    let (before, after) = (s.gathered().found, s.after(windows, reply).gathered().found);
    match s.stage {
        ScanStageView::Walking(walk) => {
            if let ScanReplyView::Object(r) = reply {
                assert(walk.found.is_prefix_of(walk.after(r).found));
                assert(before =~= s.found + walk.found);
                assert(after =~= s.found + walk.after(r).found);
            } else {
                assert(after =~= before);
            }
        },
        _ => {
            assert(after =~= before);
        },
    }
}

/// Without windows no frame is looked into, and without applications a scan is over at once.
pub proof fn scans_stay_with_the_windows(s: AppScanView, frame: usize, title: Option<Seq<char>>)
    requires
        s.stage == ScanStageView::Title(frame),
    ensures
        s.after(Seq::empty(), ScanReplyView::Title(title)) == s.to_next_frame(),
        scan_start().after(Seq::empty(), ScanReplyView::Apps(None)).query() == ScanQuery::Done,
{
}

} // verus!
