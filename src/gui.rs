use vstd::prelude::*;

use crate::image::{ImageInfo, Thumbnail, THUMBNAIL_BOUND};
use crate::widgets::Progress;
use crate::Error;

verus! {

/// What the window shows.
#[derive(Debug)]
pub enum State {
    Open,
    SearchingImages(Progress),
    Analyzing(Progress),
    Analyzed,
    CreatingThumbnails(Progress),
    ThumbnailsCreated,
    Select,
}

impl Default for State {
    fn default() -> (r: State)
        ensures
            r is Open,
    {
        State::Open
    }
}

/// What background work reports to the window.
#[derive(Debug)]
pub enum Message {
    FolderOpened(Option<String>),
    ImagesFound(Result<Vec<String>, Error>),
    ImageAnalyzed(ImageInfo),
    ImagesAnalyzed,
    ThumbnailCreated((String, Result<Thumbnail, Error>)),
    ThumbnailsCreated,
}

/// Background work that the window is to start.
#[derive(Debug)]
pub enum Command {
    Nothing,
    /// Look for image files under the folder.
    SearchImages(String),
    /// Decode these files and compute their histograms.
    AnalyzeImages(Vec<String>),
    /// Make thumbnails of these files.
    CreateThumbnails(Vec<String>),
}

/// The thumbnail shown for a file that could not be decoded: a black
/// square of the largest thumbnail size.
pub open spec fn is_placeholder(t: Thumbnail) -> bool {
    &&& t.width == THUMBNAIL_BOUND
    &&& t.height == THUMBNAIL_BOUND
    &&& t.pixels@ == Seq::new((3 * THUMBNAIL_BOUND * THUMBNAIL_BOUND) as nat, |i: int| 0u8)
}

fn placeholder_thumbnail() -> (r: Thumbnail)
    ensures
        is_placeholder(r),
{
    let pixels: Vec<u8> = vec![0u8; 30000];
    assert(pixels@ =~= Seq::new((3 * THUMBNAIL_BOUND * THUMBNAIL_BOUND) as nat, |i: int| 0u8));
    Thumbnail { width: THUMBNAIL_BOUND, height: THUMBNAIL_BOUND, pixels }
}

/// `after` is `before` with one more step done, if `before` shows the
/// progress of a task of the kind that `analyzing` names.
pub open spec fn step_done(before: State, after: State, analyzing: bool) -> bool {
    match (before, after) {
        (State::Analyzing(p), State::Analyzing(q)) => analyzing && q.total == p.total && q.message
            == p.message && q.value == if p.value < u64::MAX {
            p.value + 1
        } else {
            p.value as int
        },
        (State::CreatingThumbnails(p), State::CreatingThumbnails(q)) => !analyzing && q.total
            == p.total && q.message == p.message && q.value == if p.value < u64::MAX {
            p.value + 1
        } else {
            p.value as int
        },
        _ => false,
    }
}

/// The state shows a task of the kind that `analyzing` names.
pub open spec fn shows_task(s: State, analyzing: bool) -> bool {
    if analyzing {
        s is Analyzing
    } else {
        s is CreatingThumbnails
    }
}

/// No two thumbnails are kept for the same path.
pub open spec fn keys_unique(thumbnails: Seq<(String, Thumbnail)>) -> bool {
    forall|i: int, j: int|
        0 <= i < thumbnails.len() && 0 <= j < thumbnails.len() && i != j ==> (
        #[trigger] thumbnails[i]).0@ != (#[trigger] thumbnails[j]).0@
}

/// `after` holds `before`'s thumbnails with the one of `path` set to `t`:
/// the entry of `path` is replaced if there is one, else one is added.
pub open spec fn thumbnail_set(
    before: Seq<(String, Thumbnail)>,
    after: Seq<(String, Thumbnail)>,
    path: String,
    t: Thumbnail,
) -> bool {
    if exists|i: int| 0 <= i < before.len() && (#[trigger] before[i]).0@ == path@ {
        exists|i: int|
            0 <= i < before.len() && (#[trigger] before[i]).0@ == path@ && after == before.update(
                i,
                (before[i].0, t),
            )
    } else {
        after == before.push((path, t))
    }
}

/// Everything the window keeps besides its drawing: the folder, the files
/// found in it, their records and thumbnails, and what it shows.
pub struct AppModel {
    pub state: State,
    pub folder_path: Option<String>,
    pub image_paths: Vec<String>,
    pub images: Vec<ImageInfo>,
    pub thumbnails: Vec<(String, Thumbnail)>,
}

impl AppModel {
    /// Nothing opened yet.
    pub fn new() -> (r: AppModel)
        ensures
            r.state is Open,
            r.folder_path is None,
            r.image_paths@.len() == 0,
            r.images@.len() == 0,
            r.thumbnails@.len() == 0,
            keys_unique(r.thumbnails@),
    {
        AppModel {
            state: State::Open,
            folder_path: None,
            image_paths: Vec::new(),
            images: Vec::new(),
            thumbnails: Vec::new(),
        }
    }

    /// Starts looking for images in the chosen folder.
    pub fn search_images(&mut self) -> (r: Command)
        ensures
            final(self).state matches State::SearchingImages(p) && p.value == 0 && p.total == 1
                && p.message@ == "Searching for images"@,
            final(self).folder_path == old(self).folder_path,
            final(self).image_paths == old(self).image_paths,
            final(self).images == old(self).images,
            final(self).thumbnails == old(self).thumbnails,
            match old(self).folder_path {
                Some(path) => r matches Command::SearchImages(p) && p@ == path@,
                None => r is Nothing,
            },
    {
        self.state = State::SearchingImages(Progress::start(1, "Searching for images"));
        match &self.folder_path {
            Some(path) => Command::SearchImages(path.clone()),
            None => Command::Nothing,
        }
    }

    /// Starts decoding the files found.
    pub fn analyze_images(&mut self) -> (r: Command)
        ensures
            final(self).state matches State::Analyzing(p) && p.value == 0 && p.total
                == old(self).image_paths@.len() && p.message@ == "Analyzing images"@,
            final(self).folder_path == old(self).folder_path,
            final(self).image_paths == old(self).image_paths,
            final(self).images == old(self).images,
            final(self).thumbnails == old(self).thumbnails,
            r matches Command::AnalyzeImages(paths) && paths@.len() == old(self).image_paths@.len()
                && forall|i: int|
                0 <= i < paths@.len() ==> (#[trigger] paths@[i])@ == old(self).image_paths@[i]@,
    {
        let total = self.image_paths.len() as u64;
        self.state = State::Analyzing(Progress::start(total, "Analyzing images"));
        Command::AnalyzeImages(clone_paths(&self.image_paths))
    }

    /// Starts making the thumbnails of the files found.
    pub fn select_images(&mut self) -> (r: Command)
        ensures
            final(self).state matches State::CreatingThumbnails(p) && p.value == 0 && p.total
                == old(self).images@.len() && p.message@ == "Creating thumbnails"@,
            final(self).folder_path == old(self).folder_path,
            final(self).image_paths == old(self).image_paths,
            final(self).images == old(self).images,
            final(self).thumbnails == old(self).thumbnails,
            r matches Command::CreateThumbnails(paths) && paths@.len() == old(self).image_paths@.len()
                && forall|i: int|
                0 <= i < paths@.len() ==> (#[trigger] paths@[i])@ == old(self).image_paths@[i]@,
    {
        let total = self.images.len() as u64;
        self.state = State::CreatingThumbnails(Progress::start(total, "Creating thumbnails"));
        Command::CreateThumbnails(clone_paths(&self.image_paths))
    }

    /// Counts one more step of the task shown, if it is of the given kind.
    fn count_step(&mut self, analyzing: bool)
        ensures
            shows_task(old(self).state, analyzing) ==> step_done(
                old(self).state,
                final(self).state,
                analyzing,
            ),
            !shows_task(old(self).state, analyzing) ==> final(self).state == old(self).state,
            final(self).folder_path == old(self).folder_path,
            final(self).image_paths == old(self).image_paths,
            final(self).images == old(self).images,
            final(self).thumbnails == old(self).thumbnails,
    {
        match &mut self.state {
            State::Analyzing(progress) => {
                if analyzing {
                    progress.advance();
                }
            },
            State::CreatingThumbnails(progress) => {
                if !analyzing {
                    progress.advance();
                }
            },
            _ => {},
        }
    }

    /// Sets the thumbnail shown for `path`.
    fn set_thumbnail(&mut self, path: String, thumbnail: Thumbnail)
        requires
            keys_unique(old(self).thumbnails@),
        ensures
            thumbnail_set(old(self).thumbnails@, final(self).thumbnails@, path, thumbnail),
            keys_unique(final(self).thumbnails@),
            final(self).state == old(self).state,
            final(self).folder_path == old(self).folder_path,
            final(self).image_paths == old(self).image_paths,
            final(self).images == old(self).images,
    {
        let mut i: usize = 0;
        while i < self.thumbnails.len()
            invariant
                i <= self.thumbnails@.len(),
                self.thumbnails == old(self).thumbnails,
                keys_unique(old(self).thumbnails@),
                self.state == old(self).state,
                self.folder_path == old(self).folder_path,
                self.image_paths == old(self).image_paths,
                self.images == old(self).images,
                forall|j: int| 0 <= j < i ==> (#[trigger] self.thumbnails@[j]).0@ != path@,
            decreases self.thumbnails@.len() - i,
        {
            if self.thumbnails[i].0 == path {
                let key = self.thumbnails[i].0.clone();
                let ghost before = self.thumbnails@;
                assert(key@ == before[i as int].0@);
                self.thumbnails[i] = (key, thumbnail);
                assert(self.thumbnails@ == before.update(i as int, (before[i as int].0, thumbnail)));
                assert(before[i as int].0@ == path@);
                assert(keys_unique(self.thumbnails@)) by {
                    assert forall|p: int, q: int|
                        0 <= p < self.thumbnails@.len() && 0 <= q < self.thumbnails@.len() && p
                            != q implies (#[trigger] self.thumbnails@[p]).0@ != (
                    #[trigger] self.thumbnails@[q]).0@ by {
                        assert(self.thumbnails@[p].0@ == before[p].0@);
                        assert(self.thumbnails@[q].0@ == before[q].0@);
                        assert(before[p].0@ != before[q].0@);
                    }
                }
                return;
            }
            i = i + 1;
        }
        self.thumbnails.push((path, thumbnail));
    }

    /// Takes in one message from the background work and says what work to
    /// start next.
    pub fn handle_message(&mut self, msg: Message) -> (r: Command)
        requires
            keys_unique(old(self).thumbnails@),
        ensures
            keys_unique(final(self).thumbnails@),
            match msg {
                Message::FolderOpened(path) => {
                    &&& final(self).folder_path == path
                    &&& final(self).images == old(self).images
                    &&& final(self).state matches State::SearchingImages(p) && p.value == 0
                        && p.total == 1
                    &&& match path {
                        Some(folder) => r matches Command::SearchImages(f) && f@ == folder@,
                        None => r is Nothing,
                    }
                },
                Message::ImagesFound(Ok(paths)) => {
                    &&& final(self).image_paths == paths
                    &&& final(self).state matches State::Analyzing(p) && p.value == 0 && p.total
                        == paths@.len()
                    &&& r matches Command::AnalyzeImages(found) && found@.len() == paths@.len()
                        && forall|i: int|
                        0 <= i < found@.len() ==> (#[trigger] found@[i])@ == paths@[i]@
                    &&& final(self).images == old(self).images
                },
                Message::ImagesFound(Err(_)) => {
                    &&& final(self).state is Open
                    &&& r is Nothing
                },
                Message::ImageAnalyzed(info) => {
                    &&& final(self).images@ == old(self).images@.push(info)
                    &&& final(self).image_paths == old(self).image_paths
                    &&& final(self).thumbnails == old(self).thumbnails
                    &&& shows_task(old(self).state, true) ==> step_done(
                        old(self).state,
                        final(self).state,
                        true,
                    )
                    &&& !shows_task(old(self).state, true) ==> final(self).state == old(self).state
                    &&& r is Nothing
                },
                Message::ImagesAnalyzed => {
                    &&& final(self).state is Analyzed
                    &&& final(self).images == old(self).images
                    &&& r is Nothing
                },
                Message::ThumbnailCreated((path, result)) => {
                    &&& match result {
                        Ok(t) => thumbnail_set(
                            old(self).thumbnails@,
                            final(self).thumbnails@,
                            path,
                            t,
                        ),
                        Err(_) => exists|t: Thumbnail|
                            is_placeholder(t) && thumbnail_set(
                                old(self).thumbnails@,
                                final(self).thumbnails@,
                                path,
                                t,
                            ),
                    }
                    &&& shows_task(old(self).state, false) ==> step_done(
                        old(self).state,
                        final(self).state,
                        false,
                    )
                    &&& !shows_task(old(self).state, false) ==> final(self).state == old(self).state
                    &&& final(self).images == old(self).images
                    &&& r is Nothing
                },
                Message::ThumbnailsCreated => {
                    &&& final(self).state is Select
                    &&& r is Nothing
                },
            },
    {
        match msg {
            Message::FolderOpened(path) => {
                self.folder_path = path;
                self.search_images()
            },
            Message::ImagesFound(Ok(paths)) => {
                self.image_paths = paths;
                self.analyze_images()
            },
            Message::ImagesFound(Err(_)) => {
                self.state = State::Open;
                Command::Nothing
            },
            Message::ImageAnalyzed(info) => {
                self.images.push(info);
                self.count_step(true);
                Command::Nothing
            },
            Message::ImagesAnalyzed => {
                self.state = State::Analyzed;
                Command::Nothing
            },
            Message::ThumbnailCreated((path, result)) => {
                let thumbnail = match result {
                    Ok(t) => t,
                    Err(_) => placeholder_thumbnail(),
                };
                self.set_thumbnail(path, thumbnail);
                self.count_step(false);
                Command::Nothing
            },
            Message::ThumbnailsCreated => {
                self.state = State::Select;
                Command::Nothing
            },
        }
    }
}

fn clone_paths(paths: &Vec<String>) -> (r: Vec<String>)
    ensures
        r@.len() == paths@.len(),
        forall|i: int| 0 <= i < r@.len() ==> (#[trigger] r@[i])@ == paths@[i]@,
{
    let mut out: Vec<String> = Vec::new();
    let mut i: usize = 0;
    while i < paths.len()
        invariant
            i <= paths@.len(),
            out@.len() == i,
            forall|j: int| 0 <= j < i ==> (#[trigger] out@[j])@ == paths@[j]@,
        decreases paths@.len() - i,
    {
        out.push(paths[i].clone());
        i = i + 1;
    }
    out
}

} // verus!
