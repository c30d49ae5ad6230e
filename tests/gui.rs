use dupfinder::gui::{AppModel, Command, Message, State};
use dupfinder::image::{ImageInfo, Thumbnail};
use dupfinder::widgets::Progress;
use dupfinder::Error;

fn progress(state: &State) -> &Progress {
    match state {
        State::SearchingImages(p) | State::Analyzing(p) | State::CreatingThumbnails(p) => p,
        _ => panic!("no progress in {:?}", state),
    }
}

#[test]
fn opening_a_folder_starts_the_search() {
    let mut app = AppModel::new();
    assert!(matches!(app.state, State::Open));
    let cmd = app.handle_message(Message::FolderOpened(Some("/pics".to_string())));
    assert!(matches!(&cmd, Command::SearchImages(p) if p == "/pics"));
    assert!(matches!(app.state, State::SearchingImages(_)));
    let p = progress(&app.state);
    assert_eq!((p.value, p.total), (0, 1));
    assert_eq!(p.message, "Searching for images");

    let mut app = AppModel::new();
    let cmd = app.handle_message(Message::FolderOpened(None));
    assert!(matches!(cmd, Command::Nothing));
}

#[test]
fn analysis_counts_each_image() {
    let mut app = AppModel::new();
    let paths = vec!["a.png".to_string(), "b.png".to_string()];
    let cmd = app.handle_message(Message::ImagesFound(Ok(paths.clone())));
    assert!(matches!(&cmd, Command::AnalyzeImages(p) if *p == paths));
    assert_eq!(progress(&app.state).total, 2);
    app.handle_message(Message::ImageAnalyzed(ImageInfo::from_error(
        "a.png".to_string(),
        "bad".to_string(),
    )));
    assert_eq!(progress(&app.state).value, 1);
    assert_eq!(app.images.len(), 1);
    app.handle_message(Message::ImagesAnalyzed);
    assert!(matches!(app.state, State::Analyzed));

    let mut failed = AppModel::new();
    let cmd = failed.handle_message(Message::ImagesFound(Err(Error::NoImageFound)));
    assert!(matches!(cmd, Command::Nothing));
    assert!(matches!(failed.state, State::Open));
}

#[test]
fn thumbnails_replace_by_path() {
    let mut app = AppModel::new();
    app.images.push(ImageInfo::from_error("a.png".to_string(), "x".to_string()));
    app.image_paths.push("a.png".to_string());
    let cmd = app.select_images();
    assert!(matches!(&cmd, Command::CreateThumbnails(p) if p.len() == 1));
    assert_eq!(progress(&app.state).message, "Creating thumbnails");
    let small = Thumbnail { width: 1, height: 1, pixels: vec![1, 2, 3] };
    app.handle_message(Message::ThumbnailCreated(("a.png".to_string(), Ok(small))));
    assert_eq!(app.thumbnails.len(), 1);
    assert_eq!(progress(&app.state).value, 1);
    app.handle_message(Message::ThumbnailCreated((
        "a.png".to_string(),
        Err(Error::Image("broken".to_string())),
    )));
    assert_eq!(app.thumbnails.len(), 1);
    assert_eq!(app.thumbnails[0].1.width, 100);
    assert_eq!(app.thumbnails[0].1.pixels.len(), 30000);
    app.handle_message(Message::ThumbnailsCreated);
    assert!(matches!(app.state, State::Select));
}

#[test]
fn progress_advances_and_completes() {
    let mut p = Progress::start(2, "Working");
    assert!(!p.is_complete());
    p.advance();
    p.advance();
    assert!(p.is_complete());
    assert_eq!(p.value, 2);
    let mut full = Progress { value: u64::MAX, total: 1, message: String::new() };
    full.advance();
    assert_eq!(full.value, u64::MAX);
}
