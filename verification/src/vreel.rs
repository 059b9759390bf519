//! The virtual reel: frames and cut sources strung into one plan.

use vstd::prelude::*;
use crate::cut::{decoded, law_read_back, merged, text_of, Register};
use crate::document::{
    field_of, fields_view, find_field, items_view, lemma_array_view, lemma_object_view, Doc,
    DocView,
};
use crate::error::{Fault, FrError};
use crate::frame::{
    decoded_field, decoded_frame, law_frame_read_back, neither_named, Frame, FrameView,
};
use crate::number::{decimal, decimal_text};
use crate::ordered::{
    ascending, lemma_lookup_mapped, lemma_pairs_map_push, lemma_values_after_insert, lookup,
    mapped, pairs_map, Ordered,
};
use crate::resolve::{collect, lemma_collect_failed, lemma_collect_ok};
use crate::text::lex_less;

verus! {

/// Where a frame of a reel comes from: a file, or the reel itself.
#[derive(Debug, PartialEq, Eq)]
pub enum FrameSource {
    Path(String),
    Inline(Frame),
}

/// The mathematical value of a [`FrameSource`].
pub enum SourceView {
    Path(Seq<char>),
    Inline(FrameView),
}

impl View for FrameSource {
    type V = SourceView;

    open spec fn view(&self) -> SourceView {
        match self {
            FrameSource::Path(path) => SourceView::Path(path@),
            FrameSource::Inline(frame) => SourceView::Inline(frame@),
        }
    }
}

impl FrameSource {
    /// A frame that the reel holds itself is well formed.
    pub open spec fn well_formed(&self) -> bool {
        match self {
            FrameSource::Path(_) => true,
            FrameSource::Inline(frame) => frame.well_formed(),
        }
    }
}

/// The frames of a reel.
///
/// `RenamedList` gives each frame a new name and runs the frames in the
/// ascending order of these names. `List` runs the frames in the order of
/// the list, each under its own name.
#[derive(Debug, PartialEq, Eq)]
pub enum VirtualFrames {
    RenamedList(Ordered<FrameSource>),
    List(Vec<FrameSource>),
}

/// The cut of a reel: register files to be merged from the first to the
/// last, one register file, or the register itself.
#[derive(Debug, PartialEq, Eq)]
pub enum VirtualCut {
    MergeCuts(Vec<String>),
    Cut(String),
    Register(Register),
}

/// A reel put together from frames and cut sources of other reels.
#[derive(Debug, PartialEq, Eq)]
pub struct VirtualReel {
    pub name: String,
    pub frames: VirtualFrames,
    pub cut: VirtualCut,
}

/// What a reel runs: the register it starts with and its frames in the order
/// in which they run, each under the name it runs by.
#[derive(Debug, PartialEq, Eq)]
pub struct Plan {
    pub register: Register,
    pub frames: Vec<(String, Frame)>,
}

/// The mathematical value of a [`Plan`].
pub struct PlanView {
    pub register: Map<Seq<char>, Seq<char>>,
    pub frames: Seq<(Seq<char>, FrameView)>,
}

/// The views of a run of named frames.
pub open spec fn frames_view(frames: Seq<(String, Frame)>) -> Seq<(Seq<char>, FrameView)> {
    Seq::new(frames.len(), |i: int| (frames[i].0@, frames[i].1@))
}

impl View for Plan {
    type V = PlanView;

    open spec fn view(&self) -> PlanView {
        PlanView { register: self.register@, frames: frames_view(self.frames@) }
    }
}

impl Plan {
    /// The register and every frame are well formed.
    pub open spec fn well_formed(&self) -> bool {
        &&& self.register.well_formed()
        &&& forall|i: int| 0 <= i < self.frames@.len() ==> (#[trigger] self.frames@[i]).1.well_formed()
    }
}

/// The register that the file at `path` holds.
pub open spec fn cut_of_file(files: Seq<(Seq<char>, DocView)>, path: Seq<char>) -> Result<
    Map<Seq<char>, Seq<char>>,
    Fault,
> {
    match field_of(files, path) {
        None => Err(Fault::File(path)),
        Some(doc) => match decoded(doc) {
            Some(vars) => Ok(vars),
            None => Err(Fault::Parse),
        },
    }
}

/// The registers of the files at `paths` merged from the first to the last:
/// where two hold a name, the later one's value stands.
pub open spec fn merged_cuts(files: Seq<(Seq<char>, DocView)>, paths: Seq<Seq<char>>) -> Result<
    Map<Seq<char>, Seq<char>>,
    Fault,
>
    decreases paths.len(),
{
    if paths.len() == 0 {
        Ok(Map::empty())
    } else {
        match merged_cuts(files, paths.drop_last()) {
            Err(fault) => Err(fault),
            Ok(vars) => match cut_of_file(files, paths.last()) {
                Err(fault) => Err(fault),
                Ok(more) => Ok(merged(vars, more)),
            },
        }
    }
}

/// The views of a run of strings.
pub open spec fn strings_view(strings: Seq<String>) -> Seq<Seq<char>> {
    Seq::new(strings.len(), |i: int| strings[i]@)
}

/// The register that a reel starts with.
pub open spec fn assembled_cut(cut: VirtualCut, files: Seq<(Seq<char>, DocView)>) -> Result<
    Map<Seq<char>, Seq<char>>,
    Fault,
> {
    match cut {
        VirtualCut::Register(register) => Ok(register@),
        VirtualCut::Cut(path) => cut_of_file(files, path@),
        VirtualCut::MergeCuts(paths) => merged_cuts(files, strings_view(paths@)),
    }
}

/// The frame that a source stands for.
pub open spec fn frame_of(files: Seq<(Seq<char>, DocView)>, source: SourceView) -> Result<
    FrameView,
    Fault,
> {
    match source {
        SourceView::Inline(frame) => Ok(frame),
        SourceView::Path(path) => match field_of(files, path) {
            None => Err(Fault::File(path)),
            Some(doc) => match decoded_frame(doc) {
                Some(frame) => Ok(frame),
                None => Err(Fault::Parse),
            },
        },
    }
}

/// The name that a frame of a list runs by: its file's path, or, for a frame
/// that the reel holds itself, its place in the list.
pub open spec fn own_name(place: int, source: SourceView) -> Seq<char> {
    match source {
        SourceView::Path(path) => path,
        SourceView::Inline(_) => decimal(place as nat),
    }
}

/// The frames' sources in the order in which they run, each with the name it
/// runs by.
pub open spec fn named_sources(frames: VirtualFrames) -> Seq<(Seq<char>, SourceView)> {
    match frames {
        VirtualFrames::RenamedList(renamed) => Seq::new(
            renamed.pairs().len(),
            |i: int| (renamed.pairs()[i].0, renamed.pairs()[i].1@),
        ),
        VirtualFrames::List(list) => Seq::new(
            list@.len(),
            |i: int| (own_name(i, list@[i]@), list@[i]@),
        ),
    }
}

/// One named frame of the plan.
pub open spec fn planned_frame(files: Seq<(Seq<char>, DocView)>, named: (Seq<char>, SourceView)) -> Result<
    (Seq<char>, FrameView),
    Fault,
> {
    match frame_of(files, named.1) {
        Ok(frame) => Ok((named.0, frame)),
        Err(fault) => Err(fault),
    }
}

/// The named frames of the plan, or the failure of the first source that
/// fails.
pub open spec fn planned_frames(
    files: Seq<(Seq<char>, DocView)>,
    named: Seq<(Seq<char>, SourceView)>,
) -> Result<Seq<(Seq<char>, FrameView)>, Fault> {
    collect(Seq::new(named.len(), |i: int| planned_frame(files, named[i])))
}

/// The plan of a reel, given the documents of the files it refers to: the
/// cut is put together first, then the frames.
pub open spec fn assembled(reel: VirtualReel, files: Seq<(Seq<char>, DocView)>) -> Result<
    PlanView,
    Fault,
> {
    match assembled_cut(reel.cut, files) {
        Err(fault) => Err(fault),
        Ok(register) => match planned_frames(files, named_sources(reel.frames)) {
            Err(fault) => Err(fault),
            Ok(frames) => Ok(PlanView { register, frames }),
        },
    }
}

/// Reads the register that the file at `path` holds.
fn load_cut(files: &Vec<(String, Doc)>, path: &String) -> (r: Result<Register, FrError>)
    ensures
        r matches Ok(register) ==> register.well_formed() && cut_of_file(
            fields_view(files@),
            path@,
        ) == Ok::<Map<Seq<char>, Seq<char>>, Fault>(register@),
        r matches Err(e) ==> cut_of_file(fields_view(files@), path@) == Err::<
            Map<Seq<char>, Seq<char>>,
            Fault,
        >(e@),
{
    match find_field(files, path.as_str()) {
        None => Err(FrError::File(path.clone())),
        Some(doc) => Register::from_document(doc),
    }
}

/// Reads the frame that a source stands for.
fn load_frame(files: &Vec<(String, Doc)>, source: &FrameSource) -> (r: Result<Frame, FrError>)
    requires
        source.well_formed(),
    ensures
        r matches Ok(frame) ==> frame.well_formed() && frame_of(fields_view(files@), source@)
            == Ok::<FrameView, Fault>(frame@),
        r matches Err(e) ==> frame_of(fields_view(files@), source@) == Err::<FrameView, Fault>(e@),
{
    match source {
        FrameSource::Inline(frame) => Ok(frame.duplicate()),
        FrameSource::Path(path) => match find_field(files, path.as_str()) {
            None => Err(FrError::File(path.clone())),
            Some(doc) => Frame::from_document(doc),
        },
    }
}

impl VirtualCut {
    /// A register that the reel holds itself is well formed.
    pub open spec fn well_formed(&self) -> bool {
        match self {
            VirtualCut::Register(register) => register.well_formed(),
            _ => true,
        }
    }

    /// Puts the reel's register together from the documents of the files
    /// that the cut refers to. Fails with the first file that is not among
    /// them, or that holds no register.
    pub fn assemble(&self, files: &Vec<(String, Doc)>) -> (r: Result<Register, FrError>)
        requires
            self.well_formed(),
        ensures
            r matches Ok(register) ==> register.well_formed() && assembled_cut(
                *self,
                fields_view(files@),
            ) == Ok::<Map<Seq<char>, Seq<char>>, Fault>(register@),
            r matches Err(e) ==> assembled_cut(*self, fields_view(files@)) == Err::<
                Map<Seq<char>, Seq<char>>,
                Fault,
            >(e@),
    {
        match self {
            VirtualCut::Register(register) => Ok(register.duplicate()),
            VirtualCut::Cut(path) => load_cut(files, path),
            VirtualCut::MergeCuts(paths) => {
                let ghost all = strings_view(paths@);
                let ghost docs = fields_view(files@);
                let mut out = Register::new();
                let mut i: usize = 0;
                proof {
                    assert(all.take(0) =~= Seq::empty());
                }
                while i < paths.len()
                    invariant
                        i <= paths.len(),
                        all == strings_view(paths@),
                        docs == fields_view(files@),
                        assembled_cut(*self, docs) == merged_cuts(docs, all),
                        out.well_formed(),
                        merged_cuts(docs, all.take(i as int)) == Ok::<
                            Map<Seq<char>, Seq<char>>,
                            Fault,
                        >(out@),
                    decreases paths.len() - i,
                {
                    proof {
                        assert(all.take(i + 1).drop_last() =~= all.take(i as int));
                    }
                    match load_cut(files, &paths[i]) {
                        Ok(more) => {
                            out.merge(&more);
                        },
                        Err(e) => {
                            proof {
                                lemma_merge_failed(docs, all, i + 1);
                            }
                            return Err(e);
                        },
                    }
                    i += 1;
                }
                proof {
                    assert(all.take(i as int) =~= all);
                }
                Ok(out)
            },
        }
    }
}

/// A failure among the first files is the failure of the whole merge.
proof fn lemma_merge_failed(files: Seq<(Seq<char>, DocView)>, paths: Seq<Seq<char>>, k: int)
    requires
        0 <= k <= paths.len(),
        merged_cuts(files, paths.take(k)) is Err,
    ensures
        merged_cuts(files, paths) == merged_cuts(files, paths.take(k)),
    decreases paths.len() - k,
{
    if k < paths.len() {
        assert(paths.take(k + 1).drop_last() =~= paths.take(k));
        lemma_merge_failed(files, paths, k + 1);
    } else {
        assert(paths.take(k) =~= paths);
    }
}

impl VirtualFrames {
    /// The renamed frames stand in ascending order of their names, and every
    /// frame that the reel holds itself is well formed.
    pub open spec fn well_formed(&self) -> bool {
        match self {
            VirtualFrames::RenamedList(renamed) => renamed.well_formed() && forall|i: int|
                0 <= i < renamed.pairs().len() ==> (#[trigger] renamed.pairs()[i]).1.well_formed(),
            VirtualFrames::List(list) => forall|i: int|
                0 <= i < list@.len() ==> (#[trigger] list@[i]).well_formed(),
        }
    }

    /// Puts the frames in the order in which they run, each under the name
    /// it runs by: renamed frames by ascending name, listed frames as they
    /// are listed. Fails with the first frame whose file is not among
    /// `files`, or holds no frame.
    pub fn assemble(&self, files: &Vec<(String, Doc)>) -> (r: Result<Vec<(String, Frame)>, FrError>)
        requires
            self.well_formed(),
        ensures
            r matches Ok(frames) ==> planned_frames(fields_view(files@), named_sources(*self))
                == Ok::<Seq<(Seq<char>, FrameView)>, Fault>(frames_view(frames@)) && forall|i: int|
                0 <= i < frames@.len() ==> (#[trigger] frames@[i]).1.well_formed(),
            r matches Err(e) ==> planned_frames(fields_view(files@), named_sources(*self))
                == Err::<Seq<(Seq<char>, FrameView)>, Fault>(e@),
    {
        let ghost docs = fields_view(files@);
        let ghost named = named_sources(*self);
        let ghost outcomes = Seq::new(named.len(), |i: int| planned_frame(docs, named[i]));
        let count = match self {
            VirtualFrames::RenamedList(renamed) => renamed.len(),
            VirtualFrames::List(list) => list.len(),
        };
        let mut out: Vec<(String, Frame)> = Vec::new();
        let mut i: usize = 0;
        proof {
            assert(outcomes.take(0) =~= Seq::empty());
            assert(frames_view(out@) =~= Seq::empty());
        }
        while i < count
            invariant
                i <= count,
                count == named.len(),
                self.well_formed(),
                docs == fields_view(files@),
                named == named_sources(*self),
                outcomes == Seq::new(named.len(), |i: int| planned_frame(docs, named[i])),
                collect(outcomes.take(i as int)) == Ok::<Seq<(Seq<char>, FrameView)>, Fault>(
                    frames_view(out@),
                ),
                forall|j: int| 0 <= j < out@.len() ==> (#[trigger] out@[j]).1.well_formed(),
            decreases count - i,
        {
            proof {
                assert(outcomes.take(i + 1).drop_last() =~= outcomes.take(i as int));
            }
            let (name, loaded) = match self {
                VirtualFrames::RenamedList(renamed) => (
                    renamed.key_at(i).clone(),
                    load_frame(files, renamed.value_at(i)),
                ),
                VirtualFrames::List(list) => {
                    let name = match &list[i] {
                        FrameSource::Path(path) => path.clone(),
                        FrameSource::Inline(_) => decimal_text(i as u64),
                    };
                    (name, load_frame(files, &list[i]))
                },
            };
            match loaded {
                Ok(frame) => {
                    let ghost before = out@;
                    out.push((name, frame));
                    proof {
                        assert(frames_view(out@) =~= frames_view(before).push((name@, frame@)));
                    }
                },
                Err(e) => {
                    proof {
                        lemma_collect_failed(outcomes, i + 1);
                    }
                    return Err(e);
                },
            }
            i += 1;
        }
        proof {
            assert(outcomes.take(i as int) =~= outcomes);
        }
        Ok(out)
    }
}

impl VirtualReel {
    /// The reel's frames and cut are well formed.
    pub open spec fn well_formed(&self) -> bool {
        self.frames.well_formed() && self.cut.well_formed()
    }

    /// Puts the reel's plan together from the documents of the files that it
    /// refers to, each given with its path. Nothing is run.
    pub fn assemble(&self, files: &Vec<(String, Doc)>) -> (r: Result<Plan, FrError>)
        requires
            self.well_formed(),
        ensures
            r matches Ok(plan) ==> plan.well_formed() && assembled(*self, fields_view(files@))
                == Ok::<PlanView, Fault>(plan@),
            r matches Err(e) ==> assembled(*self, fields_view(files@)) == Err::<PlanView, Fault>(
                e@,
            ),
    {
        let register = match self.cut.assemble(files) {
            Ok(register) => register,
            Err(e) => {
                return Err(e);
            },
        };
        let frames = match self.frames.assemble(files) {
            Ok(frames) => frames,
            Err(e) => {
                return Err(e);
            },
        };
        Ok(Plan { register, frames })
    }
}

/// The function that takes a source to its view.
pub open spec fn source_view() -> spec_fn(FrameSource) -> SourceView {
    |source: FrameSource| source@
}

/// The function that tells whether a source is well formed.
pub open spec fn source_good() -> spec_fn(FrameSource) -> bool {
    |source: FrameSource| source.well_formed()
}

/// The mathematical value of a [`VirtualFrames`].
pub enum FramesView {
    RenamedList(Map<Seq<char>, SourceView>),
    List(Seq<SourceView>),
}

/// The views of a run of sources.
pub open spec fn sources_view(sources: Seq<FrameSource>) -> Seq<SourceView> {
    Seq::new(sources.len(), |i: int| sources[i]@)
}

impl View for VirtualFrames {
    type V = FramesView;

    open spec fn view(&self) -> FramesView {
        match self {
            VirtualFrames::RenamedList(renamed) => FramesView::RenamedList(
                pairs_map(mapped(renamed.pairs(), source_view())),
            ),
            VirtualFrames::List(list) => FramesView::List(sources_view(list@)),
        }
    }
}

/// The mathematical value of a [`VirtualCut`].
pub enum CutView {
    MergeCuts(Seq<Seq<char>>),
    Cut(Seq<char>),
    Register(Map<Seq<char>, Seq<char>>),
}

impl View for VirtualCut {
    type V = CutView;

    open spec fn view(&self) -> CutView {
        match self {
            VirtualCut::MergeCuts(paths) => CutView::MergeCuts(strings_view(paths@)),
            VirtualCut::Cut(path) => CutView::Cut(path@),
            VirtualCut::Register(register) => CutView::Register(register@),
        }
    }
}

/// The mathematical value of a [`VirtualReel`].
pub struct ReelView {
    pub name: Seq<char>,
    pub frames: FramesView,
    pub cut: CutView,
}

impl View for VirtualReel {
    type V = ReelView;

    open spec fn view(&self) -> ReelView {
        ReelView { name: self.name@, frames: self.frames@, cut: self.cut@ }
    }
}

/// The source that a document describes: a text is the path of a frame's
/// file, an object is the frame itself.
pub open spec fn decoded_source(doc: DocView) -> Option<SourceView> {
    match doc {
        DocView::Text(path) => Some(SourceView::Path(path)),
        DocView::Object(_) => match decoded_frame(doc) {
            Some(frame) => Some(SourceView::Inline(frame)),
            None => None,
        },
        _ => None,
    }
}

/// The sources that a run of documents describes, one for one.
pub open spec fn sources_of(items: Seq<DocView>) -> Seq<SourceView> {
    Seq::new(items.len(), |i: int| decoded_source(items[i]).unwrap())
}

/// The sources that a run of fields describes, each under its field's name.
pub open spec fn named_of(fields: Seq<(Seq<char>, DocView)>) -> Seq<(Seq<char>, SourceView)> {
    Seq::new(fields.len(), |i: int| (fields[i].0, decoded_source(fields[i].1).unwrap()))
}

/// The frames that a document describes. An array is tried first and gives a
/// list; an object gives renamed frames, a later field overriding an earlier
/// one of the same name.
pub open spec fn decoded_frames(doc: DocView) -> Option<FramesView> {
    match doc {
        DocView::Array(items) => if forall|i: int|
            0 <= i < items.len() ==> decoded_source(#[trigger] items[i]) is Some {
            Some(FramesView::List(sources_of(items)))
        } else {
            None
        },
        DocView::Object(fields) => if forall|i: int|
            0 <= i < fields.len() ==> decoded_source((#[trigger] fields[i]).1) is Some {
            Some(FramesView::RenamedList(pairs_map(named_of(fields))))
        } else {
            None
        },
        _ => None,
    }
}

/// The texts of a run of text leaves.
pub open spec fn paths_of(items: Seq<DocView>) -> Seq<Seq<char>> {
    Seq::new(items.len(), |i: int| text_of(items[i]))
}

/// The cut that a document describes. An array of texts is tried first and
/// gives files to merge; a text gives one file; an object gives the register
/// itself.
pub open spec fn decoded_cut(doc: DocView) -> Option<CutView> {
    match doc {
        DocView::Array(items) => if forall|i: int|
            0 <= i < items.len() ==> (#[trigger] items[i]) is Text {
            Some(CutView::MergeCuts(paths_of(items)))
        } else {
            None
        },
        DocView::Text(path) => Some(CutView::Cut(path)),
        DocView::Object(_) => match decoded(doc) {
            Some(vars) => Some(CutView::Register(vars)),
            None => None,
        },
        _ => None,
    }
}

/// The reel that a document describes: an object with a text `name`, with
/// `frames` and with `cut`.
pub open spec fn decoded_reel(doc: DocView) -> Option<ReelView> {
    match doc {
        DocView::Object(fields) => match (
            field_of(fields, "name"@),
            decoded_field(fields, "frames"@, |d: DocView| decoded_frames(d)),
            decoded_field(fields, "cut"@, |d: DocView| decoded_cut(d)),
        ) {
            (Some(DocView::Text(name)), Some(frames), Some(cut)) => Some(
                ReelView { name, frames, cut },
            ),
            _ => None,
        },
        _ => None,
    }
}

impl FrameSource {
    /// Reads a frame's source from its document.
    pub fn from_document(doc: &Doc) -> (r: Result<FrameSource, FrError>)
        ensures
            r matches Ok(source) ==> source.well_formed() && decoded_source(doc@) == Some(source@),
            r matches Err(e) ==> decoded_source(doc@) is None && e@ == Fault::Parse,
    {
        match doc {
            Doc::Text(path) => Ok(FrameSource::Path(path.clone())),
            Doc::Object(fields) => {
                proof {
                    lemma_object_view(*fields);
                }
                match Frame::from_document(doc) {
                    Ok(frame) => Ok(FrameSource::Inline(frame)),
                    Err(e) => Err(e),
                }
            },
            _ => Err(FrError::Parse),
        }
    }
}

impl VirtualFrames {
    /// Reads a reel's frames from their document.
    pub fn from_document(doc: &Doc) -> (r: Result<VirtualFrames, FrError>)
        ensures
            r matches Ok(frames) ==> frames.well_formed() && decoded_frames(doc@) == Some(frames@),
            r matches Err(e) ==> decoded_frames(doc@) is None && e@ == Fault::Parse,
    {
        match doc {
            Doc::Array(items) => {
                proof {
                    lemma_array_view(*items);
                }
                let ghost views = items_view(items@);
                let mut list: Vec<FrameSource> = Vec::new();
                let mut i: usize = 0;
                while i < items.len()
                    invariant
                        i <= items.len(),
                        views == items_view(items@),
                        doc@ == DocView::Array(views),
                        list@.len() == i,
                        forall|j: int|
                            0 <= j < i ==> decoded_source(#[trigger] views[j]) == Some(list@[j]@),
                        forall|j: int| 0 <= j < i ==> (#[trigger] list@[j]).well_formed(),
                    decreases items.len() - i,
                {
                    match FrameSource::from_document(&items[i]) {
                        Ok(source) => {
                            list.push(source);
                        },
                        Err(e) => {
                            proof {
                                assert(decoded_source(views[i as int]) is None);
                            }
                            return Err(e);
                        },
                    }
                    i += 1;
                }
                proof {
                    assert(sources_view(list@) =~= sources_of(views));
                }
                Ok(VirtualFrames::List(list))
            },
            Doc::Object(fields) => {
                proof {
                    lemma_object_view(*fields);
                }
                let ghost views = fields_view(fields@);
                let ghost named = named_of(views);
                let mut renamed: Ordered<FrameSource> = Ordered::new();
                let mut i: usize = 0;
                proof {
                    assert(named.take(0) =~= Seq::empty());
                    assert(mapped(renamed.pairs(), source_view()) =~= Seq::empty());
                }
                while i < fields.len()
                    invariant
                        i <= fields.len(),
                        views == fields_view(fields@),
                        named == named_of(views),
                        doc@ == DocView::Object(views),
                        renamed.well_formed(),
                        forall|j: int| 0 <= j < i ==> decoded_source((#[trigger] views[j]).1) is Some,
                        forall|j: int|
                            0 <= j < renamed.pairs().len() ==> source_good()(
                                (#[trigger] renamed.pairs()[j]).1,
                            ),
                        pairs_map(mapped(renamed.pairs(), source_view())) == pairs_map(
                            named.take(i as int),
                        ),
                    decreases fields.len() - i,
                {
                    match FrameSource::from_document(&fields[i].1) {
                        Ok(source) => {
                            let ghost before = renamed.pairs();
                            let ghost key = fields[i as int].0@;
                            renamed.insert(fields[i].0.clone(), source);
                            proof {
                                let after = renamed.pairs();
                                lemma_values_after_insert(before, after, key, source, source_good());
                                assert(named.take(i + 1) =~= named.take(i as int).push(
                                    (key, source@),
                                ));
                                lemma_pairs_map_push(named.take(i as int), key, source@);
                                assert forall|q: Seq<char>|
                                    lookup(mapped(after, source_view()), q) == (if q == key {
                                        Some(source@)
                                    } else {
                                        lookup(mapped(before, source_view()), q)
                                    }) by {
                                    lemma_lookup_mapped(after, source_view(), q);
                                    lemma_lookup_mapped(before, source_view(), q);
                                    assert(pairs_map(after).contains_key(q) == pairs_map(
                                        before,
                                    ).insert(key, source).contains_key(q));
                                    if pairs_map(after).contains_key(q) {
                                        assert(pairs_map(after)[q] == pairs_map(before).insert(
                                            key,
                                            source,
                                        )[q]);
                                    }
                                }
                                assert(pairs_map(mapped(after, source_view())) =~= pairs_map(
                                    named.take(i as int),
                                ).insert(key, source@));
                            }
                        },
                        Err(e) => {
                            proof {
                                assert(decoded_source(views[i as int].1) is None);
                            }
                            return Err(e);
                        },
                    }
                    i += 1;
                }
                proof {
                    assert(named.take(i as int) =~= named);
                }
                Ok(VirtualFrames::RenamedList(renamed))
            },
            _ => Err(FrError::Parse),
        }
    }
}

impl VirtualCut {
    /// Reads a reel's cut from its document.
    pub fn from_document(doc: &Doc) -> (r: Result<VirtualCut, FrError>)
        ensures
            r matches Ok(cut) ==> cut.well_formed() && decoded_cut(doc@) == Some(cut@),
            r matches Err(e) ==> decoded_cut(doc@) is None && e@ == Fault::Parse,
    {
        match doc {
            Doc::Array(items) => {
                proof {
                    lemma_array_view(*items);
                }
                let ghost views = items_view(items@);
                let mut paths: Vec<String> = Vec::new();
                let mut i: usize = 0;
                while i < items.len()
                    invariant
                        i <= items.len(),
                        views == items_view(items@),
                        doc@ == DocView::Array(views),
                        paths@.len() == i,
                        forall|j: int| 0 <= j < i ==> (#[trigger] views[j]) is Text,
                        forall|j: int| 0 <= j < i ==> (#[trigger] paths@[j])@ == text_of(views[j]),
                    decreases items.len() - i,
                {
                    match &items[i] {
                        Doc::Text(path) => {
                            paths.push(path.clone());
                        },
                        _ => {
                            proof {
                                assert(!(views[i as int] is Text));
                            }
                            return Err(FrError::Parse);
                        },
                    }
                    i += 1;
                }
                proof {
                    assert(strings_view(paths@) =~= paths_of(views));
                }
                Ok(VirtualCut::MergeCuts(paths))
            },
            Doc::Text(path) => Ok(VirtualCut::Cut(path.clone())),
            Doc::Object(fields) => {
                proof {
                    lemma_object_view(*fields);
                }
                match Register::from_document(doc) {
                    Ok(register) => Ok(VirtualCut::Register(register)),
                    Err(e) => Err(e),
                }
            },
            _ => Err(FrError::Parse),
        }
    }
}

impl VirtualReel {
    /// Reads a reel from its document.
    pub fn from_document(doc: &Doc) -> (r: Result<VirtualReel, FrError>)
        ensures
            r matches Ok(reel) ==> reel.well_formed() && decoded_reel(doc@) == Some(reel@),
            r matches Err(e) ==> decoded_reel(doc@) is None && e@ == Fault::Parse,
    {
        match doc {
            Doc::Object(fields) => {
                proof {
                    lemma_object_view(*fields);
                }
                let name = match find_field(fields, "name") {
                    Some(Doc::Text(name)) => name.clone(),
                    _ => {
                        return Err(FrError::Parse);
                    },
                };
                let frames = match find_field(fields, "frames") {
                    Some(d) => match VirtualFrames::from_document(d) {
                        Ok(frames) => frames,
                        Err(e) => {
                            return Err(e);
                        },
                    },
                    None => {
                        return Err(FrError::Parse);
                    },
                };
                let cut = match find_field(fields, "cut") {
                    Some(d) => match VirtualCut::from_document(d) {
                        Ok(cut) => cut,
                        Err(e) => {
                            return Err(e);
                        },
                    },
                    None => {
                        return Err(FrError::Parse);
                    },
                };
                Ok(VirtualReel { name, frames, cut })
            },
            _ => Err(FrError::Parse),
        }
    }
}

/// The paths among a run of sources, in their order.
pub open spec fn source_paths(sources: Seq<SourceView>) -> Seq<Seq<char>>
    decreases sources.len(),
{
    if sources.len() == 0 {
        Seq::empty()
    } else {
        match sources.last() {
            SourceView::Path(path) => source_paths(sources.drop_last()).push(path),
            SourceView::Inline(_) => source_paths(sources.drop_last()),
        }
    }
}

/// The paths that a cut refers to, in their order.
pub open spec fn cut_paths(cut: CutView) -> Seq<Seq<char>> {
    match cut {
        CutView::MergeCuts(paths) => paths,
        CutView::Cut(path) => seq![path],
        CutView::Register(_) => Seq::empty(),
    }
}

/// The sources of a reel's frames in the order in which they run.
pub open spec fn sources_in_order(frames: VirtualFrames) -> Seq<SourceView> {
    Seq::new(named_sources(frames).len(), |i: int| named_sources(frames)[i].1)
}

/// The files that a reel refers to: those of its cut, then those of its
/// frames in the order in which they run.
pub open spec fn required_files(reel: VirtualReel) -> Seq<Seq<char>> {
    cut_paths(reel.cut@) + source_paths(sources_in_order(reel.frames))
}

impl VirtualReel {
    /// The paths of the files that the reel refers to, in the order in which
    /// putting the plan together asks for them.
    pub fn files(&self) -> (paths: Vec<String>)
        ensures
            strings_view(paths@) == required_files(*self),
    {
        let mut out: Vec<String> = Vec::new();
        match &self.cut {
            VirtualCut::MergeCuts(paths) => {
                let mut i: usize = 0;
                while i < paths.len()
                    invariant
                        i <= paths.len(),
                        out@.len() == i,
                        forall|j: int| 0 <= j < i ==> (#[trigger] out@[j])@ == paths@[j]@,
                    decreases paths.len() - i,
                {
                    out.push(paths[i].clone());
                    i += 1;
                }
                proof {
                    assert(strings_view(out@) =~= strings_view(paths@));
                }
            },
            VirtualCut::Cut(path) => {
                out.push(path.clone());
                proof {
                    assert(strings_view(out@) =~= seq![path@]);
                }
            },
            VirtualCut::Register(_) => {
                proof {
                    assert(strings_view(out@) =~= Seq::<Seq<char>>::empty());
                }
            },
        }
        let ghost first = cut_paths(self.cut@);
        let ghost sources = sources_in_order(self.frames);
        let count = match &self.frames {
            VirtualFrames::RenamedList(renamed) => renamed.len(),
            VirtualFrames::List(list) => list.len(),
        };
        let mut i: usize = 0;
        proof {
            assert(sources.take(0) =~= Seq::empty());
            assert(first + source_paths(sources.take(0)) =~= first);
        }
        while i < count
            invariant
                i <= count,
                count == sources.len(),
                sources == sources_in_order(self.frames),
                strings_view(out@) == first + source_paths(sources.take(i as int)),
            decreases count - i,
        {
            proof {
                assert(sources.take(i + 1).drop_last() =~= sources.take(i as int));
            }
            let source = match &self.frames {
                VirtualFrames::RenamedList(renamed) => renamed.value_at(i),
                VirtualFrames::List(list) => &list[i],
            };
            match source {
                FrameSource::Path(path) => {
                    let ghost before = out@;
                    out.push(path.clone());
                    proof {
                        assert(strings_view(out@) =~= strings_view(before).push(path@));
                        assert(first + source_paths(sources.take(i + 1)) =~= (first + source_paths(
                            sources.take(i as int),
                        )).push(path@));
                    }
                },
                FrameSource::Inline(_) => {},
            }
            i += 1;
        }
        proof {
            assert(sources.take(i as int) =~= sources);
        }
        out
    }
}

/// Renamed frames run in the ascending order of their new names, whatever
/// the order in which they were given: the plan holds one frame for each
/// name, under that name, and the names ascend.
pub proof fn law_renamed_run_in_order(
    frames: VirtualFrames,
    files: Seq<(Seq<char>, DocView)>,
    plan: Seq<(Seq<char>, FrameView)>,
)
    requires
        frames is RenamedList,
        frames.well_formed(),
        planned_frames(files, named_sources(frames)) == Ok::<Seq<(Seq<char>, FrameView)>, Fault>(
            plan,
        ),
    ensures
        ascending(plan),
        plan.len() == frames->RenamedList_0.pairs().len(),
        forall|i: int|
            0 <= i < plan.len() ==> (#[trigger] plan[i]).0 == frames->RenamedList_0.pairs()[i].0
                && frame_of(files, frames->RenamedList_0.pairs()[i].1@) == Ok::<FrameView, Fault>(
                plan[i].1,
            ),
{
    let named = named_sources(frames);
    let pairs = frames->RenamedList_0.pairs();
    let outcomes = Seq::new(named.len(), |i: int| planned_frame(files, named[i]));
    lemma_collect_ok(outcomes);
    assert forall|i: int| 0 <= i < plan.len() implies (#[trigger] plan[i]).0 == pairs[i].0
        && frame_of(files, pairs[i].1@) == Ok::<FrameView, Fault>(plan[i].1) by {
        assert(outcomes[i] == Ok::<(Seq<char>, FrameView), Fault>(plan[i]));
    }
    assert forall|i: int, j: int| 0 <= i < j < plan.len() implies lex_less(
        (#[trigger] plan[i]).0,
        (#[trigger] plan[j]).0,
    ) by {
        assert(lex_less(pairs[i].0, pairs[j].0));
    }
}

/// Listed frames run in the order of the list: the plan holds the frame of
/// each source at the source's place, under its own name.
pub proof fn law_listed_run_in_order(
    frames: VirtualFrames,
    files: Seq<(Seq<char>, DocView)>,
    plan: Seq<(Seq<char>, FrameView)>,
)
    requires
        frames is List,
        planned_frames(files, named_sources(frames)) == Ok::<Seq<(Seq<char>, FrameView)>, Fault>(
            plan,
        ),
    ensures
        plan.len() == frames->List_0@.len(),
        forall|i: int|
            0 <= i < plan.len() ==> (#[trigger] plan[i]).0 == own_name(i, frames->List_0@[i]@)
                && frame_of(files, frames->List_0@[i]@) == Ok::<FrameView, Fault>(plan[i].1),
{
    let named = named_sources(frames);
    let list = frames->List_0@;
    let outcomes = Seq::new(named.len(), |i: int| planned_frame(files, named[i]));
    lemma_collect_ok(outcomes);
    assert forall|i: int| 0 <= i < plan.len() implies (#[trigger] plan[i]).0 == own_name(
        i,
        list[i]@,
    ) && frame_of(files, list[i]@) == Ok::<FrameView, Fault>(plan[i].1) by {
        assert(outcomes[i] == Ok::<(Seq<char>, FrameView), Fault>(plan[i]));
    }
}

/// Where cut files are merged, the last file overrides: every variable that
/// it holds has its value in the merged register.
pub proof fn law_later_cut_overrides(
    files: Seq<(Seq<char>, DocView)>,
    paths: Seq<Seq<char>>,
    name: Seq<char>,
)
    requires
        paths.len() > 0,
        merged_cuts(files, paths) is Ok,
    ensures
        cut_of_file(files, paths.last()) is Ok,
        cut_of_file(files, paths.last())->Ok_0.contains_key(name) ==> merged_cuts(
            files,
            paths,
        )->Ok_0.contains_key(name) && merged_cuts(files, paths)->Ok_0[name] == cut_of_file(
            files,
            paths.last(),
        )->Ok_0[name],
{
}

impl FrameSource {
    /// The document that `to_document` gives: a path as a text, a frame as
    /// its own document.
    pub open spec fn document(&self) -> DocView {
        match self {
            FrameSource::Path(path) => DocView::Text(path@),
            FrameSource::Inline(frame) => frame.document(),
        }
    }

    /// Writes the source as a document.
    pub fn to_document(&self) -> (doc: Doc)
        requires
            self.well_formed(),
        ensures
            doc@ == self.document(),
    {
        match self {
            FrameSource::Path(path) => Doc::Text(path.clone()),
            FrameSource::Inline(frame) => frame.to_document(),
        }
    }
}

impl VirtualFrames {
    /// The document that `to_document` gives: renamed frames as an object
    /// with a field for each name, in ascending order; listed frames as an
    /// array.
    pub open spec fn document(&self) -> DocView {
        match self {
            VirtualFrames::RenamedList(renamed) => DocView::Object(
                Seq::new(
                    renamed.pairs().len(),
                    |i: int| (renamed.pairs()[i].0, renamed.pairs()[i].1.document()),
                ),
            ),
            VirtualFrames::List(list) => DocView::Array(
                Seq::new(list@.len(), |i: int| list@[i].document()),
            ),
        }
    }

    /// Writes the frames as a document.
    pub fn to_document(&self) -> (doc: Doc)
        requires
            self.well_formed(),
        ensures
            doc@ == self.document(),
    {
        match self {
            VirtualFrames::RenamedList(renamed) => {
                let mut fields: Vec<(String, Doc)> = Vec::new();
                let mut i: usize = 0;
                while i < renamed.len()
                    invariant
                        i <= renamed.pairs().len(),
                        forall|j: int|
                            0 <= j < renamed.pairs().len() ==> (
                            #[trigger] renamed.pairs()[j]).1.well_formed(),
                        fields@.len() == i,
                        forall|j: int|
                            0 <= j < i ==> (#[trigger] fields@[j]).0@ == renamed.pairs()[j].0
                                && fields@[j].1@ == renamed.pairs()[j].1.document(),
                    decreases renamed.pairs().len() - i,
                {
                    fields.push((renamed.key_at(i).clone(), renamed.value_at(i).to_document()));
                    i += 1;
                }
                proof {
                    lemma_object_view(fields);
                    assert(fields_view(fields@) =~= self.document()->Object_0);
                }
                Doc::Object(fields)
            },
            VirtualFrames::List(list) => {
                let mut items: Vec<Doc> = Vec::new();
                let mut i: usize = 0;
                while i < list.len()
                    invariant
                        i <= list.len(),
                        forall|j: int| 0 <= j < list@.len() ==> (#[trigger] list@[j]).well_formed(),
                        items@.len() == i,
                        forall|j: int| 0 <= j < i ==> (#[trigger] items@[j])@ == list@[j].document(),
                    decreases list.len() - i,
                {
                    items.push(list[i].to_document());
                    i += 1;
                }
                proof {
                    lemma_array_view(items);
                    assert(items_view(items@) =~= self.document()->Array_0);
                }
                Doc::Array(items)
            },
        }
    }
}

impl VirtualCut {
    /// The document that `to_document` gives: files to merge as an array of
    /// their paths, one file as its path, a register as its own document.
    pub open spec fn document(&self) -> DocView {
        match self {
            VirtualCut::MergeCuts(paths) => DocView::Array(
                Seq::new(paths@.len(), |i: int| DocView::Text(paths@[i]@)),
            ),
            VirtualCut::Cut(path) => DocView::Text(path@),
            VirtualCut::Register(register) => register.serialized(),
        }
    }

    /// Writes the cut as a document.
    pub fn to_document(&self) -> (doc: Doc)
        requires
            self.well_formed(),
        ensures
            doc@ == self.document(),
    {
        match self {
            VirtualCut::MergeCuts(paths) => {
                let mut items: Vec<Doc> = Vec::new();
                let mut i: usize = 0;
                while i < paths.len()
                    invariant
                        i <= paths.len(),
                        items@.len() == i,
                        forall|j: int|
                            0 <= j < i ==> (#[trigger] items@[j])@ == DocView::Text(paths@[j]@),
                    decreases paths.len() - i,
                {
                    items.push(Doc::Text(paths[i].clone()));
                    i += 1;
                }
                proof {
                    lemma_array_view(items);
                    assert(items_view(items@) =~= self.document()->Array_0);
                }
                Doc::Array(items)
            },
            VirtualCut::Cut(path) => Doc::Text(path.clone()),
            VirtualCut::Register(register) => register.serialize(),
        }
    }
}

impl VirtualReel {
    /// The document that `to_document` gives: `name`, `frames` and `cut`.
    pub open spec fn document(&self) -> DocView {
        DocView::Object(
            seq![
                ("name"@, DocView::Text(self.name@)),
                ("frames"@, self.frames.document()),
                ("cut"@, self.cut.document()),
            ],
        )
    }

    /// Writes the reel as a document.
    pub fn to_document(&self) -> (doc: Doc)
        requires
            self.well_formed(),
        ensures
            doc@ == self.document(),
    {
        let mut fields: Vec<(String, Doc)> = Vec::new();
        fields.push(("name".to_owned(), Doc::Text(self.name.clone())));
        fields.push(("frames".to_owned(), self.frames.to_document()));
        fields.push(("cut".to_owned(), self.cut.to_document()));
        proof {
            lemma_object_view(fields);
            assert(fields_view(fields@) =~= self.document()->Object_0);
        }
        Doc::Object(fields)
    }
}

impl FrameSource {
    /// No further field of a frame that the reel holds itself is named like
    /// a field that has a name of its own, so that the frame can be read
    /// back from its document.
    pub open spec fn plainly_named(&self) -> bool {
        match self {
            FrameSource::Path(_) => true,
            FrameSource::Inline(frame) => neither_named(frame@.request.etc, "body"@, "uri"@)
                && neither_named(frame@.response.etc, "body"@, "status"@),
        }
    }
}

impl VirtualFrames {
    /// Every frame that the reel holds itself can be read back from its
    /// document.
    pub open spec fn plainly_named(&self) -> bool {
        match self {
            VirtualFrames::RenamedList(renamed) => forall|i: int|
                0 <= i < renamed.pairs().len() ==> (#[trigger] renamed.pairs()[i]).1.plainly_named(),
            VirtualFrames::List(list) => forall|i: int|
                0 <= i < list@.len() ==> (#[trigger] list@[i]).plainly_named(),
        }
    }
}

/// A source is read back from its document.
pub proof fn law_source_read_back(source: FrameSource)
    requires
        source.plainly_named(),
    ensures
        decoded_source(source.document()) == Some(source@),
{
    if let FrameSource::Inline(frame) = source {
        law_frame_read_back(frame);
    }
}

/// The frames of a reel are read back from their document.
pub proof fn law_frames_read_back(frames: VirtualFrames)
    requires
        frames.plainly_named(),
    ensures
        decoded_frames(frames.document()) == Some(frames@),
{
    match frames {
        VirtualFrames::List(list) => {
            let items = frames.document()->Array_0;
            assert forall|i: int| 0 <= i < items.len() implies decoded_source(#[trigger] items[i])
                == Some(list@[i]@) by {
                law_source_read_back(list@[i]);
            }
            assert(sources_of(items) =~= sources_view(list@));
        },
        VirtualFrames::RenamedList(renamed) => {
            let fields = frames.document()->Object_0;
            let pairs = renamed.pairs();
            assert forall|i: int| 0 <= i < fields.len() implies decoded_source(
                (#[trigger] fields[i]).1,
            ) == Some(pairs[i].1@) by {
                law_source_read_back(pairs[i].1);
            }
            assert(named_of(fields) =~= mapped(pairs, source_view()));
        },
    }
}

/// The cut of a reel is read back from its document.
pub proof fn law_cut_read_back(cut: VirtualCut)
    ensures
        decoded_cut(cut.document()) == Some(cut@),
{
    match cut {
        VirtualCut::MergeCuts(paths) => {
            let items = cut.document()->Array_0;
            assert(paths_of(items) =~= strings_view(paths@));
        },
        VirtualCut::Cut(_) => {},
        VirtualCut::Register(register) => {
            law_read_back(register);
        },
    }
}

/// A reel is read back from its document as it was, provided that every
/// frame that it holds itself can be.
pub proof fn law_reel_read_back(reel: VirtualReel)
    requires
        reel.frames.plainly_named(),
    ensures
        decoded_reel(reel.document()) == Some(reel@),
{
    reveal_strlit("name");
    reveal_strlit("frames");
    reveal_strlit("cut");
    assert("name"@.len() != "frames"@.len() && "name"@.len() != "cut"@.len() && "frames"@.len()
        != "cut"@.len());
    law_frames_read_back(reel.frames);
    law_cut_read_back(reel.cut);
    let fields = reel.document()->Object_0;
    let one = fields.drop_first();
    let two = one.drop_first();
    assert(one =~= seq![("frames"@, reel.frames.document()), ("cut"@, reel.cut.document())]);
    assert(two =~= seq![("cut"@, reel.cut.document())]);
    assert(field_of(two, "cut"@) == Some(reel.cut.document()));
    assert(field_of(one, "cut"@) == Some(reel.cut.document()));
    assert(field_of(one, "frames"@) == Some(reel.frames.document()));
    assert(field_of(fields, "name"@) == Some(DocView::Text(reel.name@)));
    assert(field_of(fields, "frames"@) == Some(reel.frames.document()));
    assert(field_of(fields, "cut"@) == Some(reel.cut.document()));
}

} // verus!
