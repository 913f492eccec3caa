use sound_tool::config::{default_config, is_supported_version, load_config};
use sound_tool::input::InputFileType;
use sound_tool::tools::{to_console_path, FFmpegCli, FFmpegError, WwiseConsole, WwiseError, WwiseSource};

#[test]
fn bin_config_is_set_and_found() {
    let mut c = default_config();
    assert_eq!(c.version, 1);
    assert!(c.get_bin_config("ffmpeg").is_none());
    c.set_bin_config("ffmpeg", "/usr/bin/ffmpeg");
    c.set_bin_config("WwiseConsole", "C:/W.exe");
    c.set_bin_config("ffmpeg", "/opt/ffmpeg");
    assert_eq!(c.bin.len(), 2);
    assert_eq!(c.get_bin_config("ffmpeg").unwrap().path, "/opt/ffmpeg");
    assert_eq!(c.get_bin_config("WwiseConsole").unwrap().path, "C:/W.exe");
}

#[test]
fn initialize_keeps_configured_paths() {
    let mut c = default_config();
    c.set_bin_config("ffmpeg", "/usr/bin/ffmpeg");
    c.initialize(Some("/found/ffmpeg"), Some("/found/console"));
    assert_eq!(c.get_bin_config("ffmpeg").unwrap().path, "/usr/bin/ffmpeg");
    assert_eq!(c.get_bin_config("WwiseConsole").unwrap().path, "/found/console");
    let mut d = default_config();
    d.initialize(None, None);
    assert!(d.bin.is_empty());
}

#[test]
fn config_loading_falls_back_to_default() {
    assert_eq!(load_config(None).version, 1);
    assert!(is_supported_version(1));
    assert!(!is_supported_version(2));
}

#[test]
fn test_ffmpeg_cli() {
    let _ffmpeg_cli = FFmpegCli::new_with_path("ffmpeg".to_string(), true).unwrap();
    println!("path: {}", _ffmpeg_cli.program_path());
    assert!(FFmpegCli::new_with_path("ffmpeg".to_string(), false).is_none());
}

#[test]
fn test_console() {
    let _console = WwiseConsole::new_with_path("WwiseConsole.exe", true, true).unwrap();
    assert!(matches!(
        WwiseConsole::new_with_path("W.exe", false, true),
        Err(WwiseError::WwiseConsoleNotFound)
    ));
    match WwiseConsole::new_with_path("W.exe", true, false) {
        Err(WwiseError::Assertion(m)) => assert_eq!(m, "Found console but failed to test: W.exe"),
        other => panic!("unexpected {:?}", other),
    }
}

#[test]
fn command_failure_keeps_output_text() {
    match FFmpegError::command_failed(Some(1), b"out", &[0x66, 0xff]) {
        FFmpegError::CommandFailed { code, stdout, stderr } => {
            assert_eq!(code, Some(1));
            assert_eq!(stdout, "out");
            assert_eq!(stderr, "f\u{FFFD}");
        }
        other => panic!("unexpected {:?}", other),
    }
    match WwiseError::command_failed(None, b"", b"err") {
        WwiseError::CommandFailed { code, stderr, .. } => {
            assert_eq!(code, None);
            assert_eq!(stderr, "err");
        }
        other => panic!("unexpected {:?}", other),
    }
}

#[test]
fn console_paths_use_backslashes_without_verbatim_prefix() {
    assert_eq!(to_console_path("C:/a/b.wav"), "C:\\a\\b.wav");
    assert_eq!(to_console_path("\\\\?\\C:\\x"), "C:\\x");
}

#[test]
fn source_list_xml() {
    let mut s = WwiseSource::new("C:/root");
    s.add_source("a/b.wav");
    assert_eq!(s.root, "C:\\root");
    assert_eq!(
        s.to_xml(),
        "<?xml version=\"1.0\" encoding=\"UTF-8\"?>\n<ExternalSourcesList SchemaVersion=\"1\" Root=\"C:\\root\">\n    <Source Path=\"a\\b.wav\" Conversion=\"Vorbis Quality High\"/>\n\n</ExternalSourcesList>"
    );
}

#[test]
fn input_kinds() {
    assert!(matches!(InputFileType::from_extension("mp3"), Some(InputFileType::GeneralAudio("mp3"))));
    assert!(InputFileType::from_extension("txt").is_none());
    assert!(matches!(InputFileType::from_magic(*b"BKHD"), Some(InputFileType::Bnk)));
    assert!(matches!(InputFileType::from_magic(*b"AKPK"), Some(InputFileType::Pck)));
    assert!(matches!(InputFileType::from_magic(*b"RIFF"), Some(InputFileType::Wem)));
    assert!(InputFileType::from_magic(*b"OggS").is_none());
    let wav = InputFileType::GeneralAudio("wav");
    assert!(wav.similar_to(&InputFileType::GeneralAudio("ogg")));
    assert!(!InputFileType::Bnk.similar_to(&InputFileType::Pck));
    assert!(!InputFileType::Project.similar_to(&InputFileType::Project));
}
