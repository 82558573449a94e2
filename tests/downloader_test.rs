use std::path::Path;

use download_manga::args::Args;
use download_manga::chapter_to_download::{join_text, select_image_sources};
use download_manga::downloader::{
    self, chapter_document_stem, image_file_name, image_target_path, sanitize_filename_for, sanitize_lowered,
    FetchScheduler,
};
use download_manga::error::DownloadError;
use download_manga::manga_to_download::{chapters_to_download, number_chapters, ChapterInfo};
use download_manga::selection::{chapter_index_of_last, parse_chapter_selection, parse_usize};

#[test]
fn test_build_chapter_path() {
    let output_dir = "/tmp/manga";
    let chapter_title = "Chapter 1: Test/With?Invalid:Chars";

    let path = downloader::build_chapter_path(output_dir, chapter_title);

    assert!(Path::new(&path).is_absolute() == Path::new(output_dir).is_absolute());

    let path_str = Path::new(&path).file_name().unwrap().to_string_lossy().to_string();
    assert!(path_str.contains("chapter"));
}

#[test]
fn test_sanitize_filename() {
    let filenames = vec![
        "Chapter 1: Test",
        "File/with/slashes",
        "Windows:reserved*chars?",
        "Very.long.file.name.that.should.be.truncated.if.it.exceeds.the.maximum.length.allowed.by.the.underlying.filesystem.which.varies.but.is.typically.around.255.characters.on.modern.systems.like.Windows.NTFS.or.Linux.ext4.this.helps.ensure.compatibility.across.different.platforms"
    ];

    for filename in filenames {
        let sanitized = downloader::sanitize_filename(filename);
        assert!(!sanitized.is_empty());
        assert!(sanitized.len() <= 255);
        assert!(!sanitized.contains('/'));
    }
}

#[test]
fn sanitize_rules_on_each_platform() {
    assert_eq!(sanitize_filename_for("Chapter 1: Test", false), "chapter-1:-test");
    assert_eq!(sanitize_filename_for("Chapter 1: Test", true), "chapter-1_-test");
    assert_eq!(sanitize_filename_for("a/b\\c", false), "a_b\\c");
    assert_eq!(sanitize_filename_for("a/b\\c", true), "a_b_c");
    assert_eq!(sanitize_filename_for("CON", true), "_con");
    assert_eq!(sanitize_filename_for("Lpt7", true), "_lpt7");
    assert_eq!(sanitize_filename_for("lpt0", true), "lpt0");
    assert_eq!(sanitize_filename_for("CON", false), "con");
    assert_eq!(sanitize_filename_for(".hidden", false), "_.hidden");
    assert_eq!(sanitize_filename_for("", false), "");
    assert_eq!(downloader::sanitize_filename("One/Two Three"), "one_two-three");
}

#[test]
fn sanitize_truncates_to_whole_characters_within_255_bytes() {
    let long = "x".repeat(300);
    assert_eq!(sanitize_lowered(&long, false), "x".repeat(255));
    let wide = "é".repeat(200);
    let cut = sanitize_lowered(&wide, false);
    assert_eq!(cut, "é".repeat(127));
    assert_eq!(cut.len(), 254);
    let exact = "x".repeat(255);
    assert_eq!(sanitize_lowered(&exact, false), exact);
}

#[test]
fn image_names_are_zero_padded() {
    assert_eq!(image_file_name(0), "image_000.jpg");
    assert_eq!(image_file_name(7), "image_007.jpg");
    assert_eq!(image_file_name(42), "image_042.jpg");
    assert_eq!(image_file_name(123), "image_123.jpg");
    assert_eq!(image_file_name(1234), "image_1234.jpg");
    assert_eq!(image_target_path(&"/out".to_string(), 3), "/out/image_003.jpg");
    assert_eq!(image_target_path(&"/out/".to_string(), 3), "/out/image_003.jpg");
}

/// Runs a batch through the scheduler, completing the oldest outstanding
/// fetch first, and returns it with the highest number of outstanding fetches.
fn run_batch(total: usize, limit: usize, fails: &[usize]) -> (FetchScheduler, usize) {
    let mut s = FetchScheduler::new(total, limit);
    let mut outstanding: Vec<usize> = Vec::new();
    let mut high_water = 0;
    loop {
        while let Some(i) = s.start_next() {
            outstanding.push(i);
            high_water = high_water.max(outstanding.len());
            assert_eq!(s.in_flight_count(), outstanding.len());
        }
        if outstanding.is_empty() {
            break;
        }
        let i = outstanding.remove(0);
        if fails.contains(&i) {
            s.record(i, Err(DownloadError::HttpStatus(404)));
        } else {
            s.record(i, Ok(format!("/out/{}", image_file_name(i))));
        }
    }
    assert!(s.is_finished());
    (s, high_water)
}

// K = 2 over five items where items 1 and 3 fail.
#[test]
fn batch_with_two_failures() {
    let (s, high_water) = run_batch(5, 2, &[1, 3]);
    assert_eq!(s.success_count(), 3);
    assert_eq!(s.failure_count(), 2);
    assert!(high_water <= 2);
    let mut ok: Vec<usize> = s.successes().iter().map(|(i, _)| *i).collect();
    ok.sort();
    assert_eq!(ok, vec![0, 2, 4]);
    let mut failed: Vec<usize> = s.failures().iter().map(|(i, _)| *i).collect();
    failed.sort();
    assert_eq!(failed, vec![1, 3]);
    for (i, path) in s.successes() {
        assert_eq!(path, &format!("/out/{}", image_file_name(*i)));
    }
    let ordered: Vec<usize> = s.successes_in_item_order().iter().map(|(i, _)| *i).collect();
    assert_eq!(ordered, vec![0, 2, 4]);
    let paths = s.into_paths();
    assert_eq!(paths.len(), 3);
}

// Never more than K fetches outstanding, for several K and N.
#[test]
fn outstanding_fetches_never_exceed_the_limit() {
    for limit in 1..5 {
        for total in 0..9 {
            let (s, high_water) = run_batch(total, limit, &[]);
            assert!(high_water <= limit);
            assert_eq!(high_water, limit.min(total));
            assert_eq!(s.success_count(), total);
        }
    }
}

#[test]
fn scheduler_waits_for_a_free_slot() {
    let mut s = FetchScheduler::new(3, 1);
    assert_eq!(s.start_next(), Some(0));
    assert_eq!(s.start_next(), None);
    s.record(0, Err(DownloadError::RequestFailed("reset".to_string())));
    assert_eq!(s.start_next(), Some(1));
    s.record(1, Ok("p".to_string()));
    assert_eq!(s.start_next(), Some(2));
    assert!(!s.is_finished());
    s.record(2, Ok("q".to_string()));
    assert_eq!(s.start_next(), None);
    assert!(s.is_finished());
    assert_eq!(s.into_paths(), vec!["p".to_string(), "q".to_string()]);
}

#[test]
fn selection_of_numbers_and_ranges() {
    assert_eq!(parse_chapter_selection("1,3-5,7", 10).unwrap(), vec![1, 3, 4, 5, 7]);
    assert_eq!(parse_chapter_selection(" 7 , 2, 2 ,0", 10).unwrap(), vec![0, 2, 7]);
    assert_eq!(parse_chapter_selection("5-2, 8-12, 12, x", 10).unwrap(), Vec::<usize>::new());
    assert_eq!(parse_chapter_selection("+3, 1 - 2", 10).unwrap(), vec![1, 2, 3]);
    assert_eq!(parse_chapter_selection("", 10).unwrap(), Vec::<usize>::new());
    assert_eq!(parse_chapter_selection("1-2-3", 10).unwrap(), Vec::<usize>::new());
    assert!(matches!(parse_chapter_selection("a-3", 10), Err(DownloadError::ParsingError(_))));
    assert!(matches!(parse_chapter_selection("1,2-b", 10), Err(DownloadError::ParsingError(_))));
    assert!(matches!(parse_chapter_selection("-3", 10), Err(DownloadError::ParsingError(_))));
}

#[test]
fn usize_parsing_follows_std() {
    let chars = |s: &str| s.chars().collect::<Vec<char>>();
    for s in ["0", "+12", "007", "18446744073709551615", "18446744073709551616", "", "+", "-1", "1a", " 1"] {
        assert_eq!(parse_usize(&chars(s)), s.parse::<usize>().ok(), "input {:?}", s);
    }
}

#[test]
fn last_index_of_a_chunk() {
    let chapter = |index: usize| ChapterInfo { index, title: String::new(), url: String::new() };
    assert_eq!(chapter_index_of_last(&[]), 0);
    assert_eq!(chapter_index_of_last(&[chapter(3), chapter(9)]), 9);
}

#[test]
fn chapters_are_numbered_newest_first() {
    let links = vec![
        (Some("https://e.com/chapter-1".to_string()), "Chapter 1".to_string()),
        (None, "broken".to_string()),
        (Some("https://e.com/chapter-2".to_string()), "Chapter 2".to_string()),
    ];
    let chapters = number_chapters(links).unwrap();
    assert_eq!(chapters.len(), 2);
    assert_eq!(chapters[0].index, 0);
    assert_eq!(chapters[0].title, "Chapter 2");
    assert_eq!(chapters[0].url, "https://e.com/chapter-2");
    assert_eq!(chapters[1].index, 1);
    assert_eq!(chapters[1].title, "Chapter 1");
    assert!(matches!(number_chapters(vec![(None, "x".to_string())]), Err(DownloadError::ElementNotFound(_))));
    assert!(matches!(number_chapters(Vec::new()), Err(DownloadError::ElementNotFound(_))));
}

#[test]
fn image_sources_prefer_src_and_skip_empty() {
    let elements = vec![
        (Some(" a.jpg ".to_string()), Some("ignored.jpg".to_string())),
        (None, Some("\tb.jpg".to_string())),
        (None, None),
        (Some("   ".to_string()), None),
    ];
    assert_eq!(
        select_image_sources(&elements).unwrap(),
        vec!["a.jpg".to_string(), "b.jpg".to_string()]
    );
    assert!(matches!(select_image_sources(&vec![(None, None)]), Err(DownloadError::ElementNotFound(_))));
    let wide = vec![(Some("\u{3000}c.jpg\u{a0}\n".to_string()), None)];
    assert_eq!(select_image_sources(&wide).unwrap(), vec!["c.jpg".to_string()]);
}

#[test]
fn text_pieces_join_with_spaces() {
    assert_eq!(join_text(&vec![]), "");
    assert_eq!(join_text(&vec!["One".to_string()]), "One");
    assert_eq!(join_text(&vec!["One".to_string(), "Two".to_string(), "".to_string()]), "One Two ");
}

#[test]
fn max_age_in_seconds() {
    let mut args = Args {
        link: String::new(),
        output_dir: String::new(),
        concurrency: 5,
        all: false,
        cache: true,
        cache_max_age: 1,
        cache_dir: None,
        validate_cache: false,
        clear_cache: false,
        verbose: 0,
    };
    assert_eq!(args.cache_max_age_seconds(), 86400);
    args.cache_max_age = 30;
    assert_eq!(args.cache_max_age_seconds(), 30 * 86400);
    args.cache_max_age = u64::MAX;
    assert_eq!(args.cache_max_age_seconds(), u64::MAX);
}

#[test]
fn selected_chapters_are_found_in_listing_order() {
    let chapter = |index: usize| ChapterInfo { index, title: format!("c{}", index), url: String::new() };
    let all = vec![chapter(0), chapter(1), chapter(2), chapter(3)];
    assert_eq!(chapters_to_download(&all, &[3, 1, 9]).unwrap(), vec![1, 3]);
    assert!(matches!(chapters_to_download(&all, &[]), Err(DownloadError::ParsingError(_))));
    assert!(matches!(chapters_to_download(&all, &[7]), Err(DownloadError::ParsingError(_))));
}

#[test]
fn document_stem_dashes_and_lowercases() {
    assert_eq!(chapter_document_stem("Chapter 1 Part A"), "chapter-1-part-a");
    assert_eq!(chapter_document_stem(""), "");
}

#[test]
fn successes_come_back_in_item_order() {
    let mut s = FetchScheduler::new(3, 3);
    assert_eq!(s.start_next(), Some(0));
    assert_eq!(s.start_next(), Some(1));
    assert_eq!(s.start_next(), Some(2));
    s.record(2, Ok("c".to_string()));
    s.record(0, Ok("a".to_string()));
    s.record(1, Err(DownloadError::HttpStatus(500)));
    assert_eq!(s.successes_in_item_order(), vec![(0, "a".to_string()), (2, "c".to_string())]);
    assert_eq!(s.into_paths(), vec!["c".to_string(), "a".to_string()]);
}
