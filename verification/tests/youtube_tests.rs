use ytq::normalize::{build_canonical_url, extract_video_id, is_valid_id_format};

#[test]
fn valid_video_id_direct() {
    assert_eq!(extract_video_id("dQw4w9WgXcQ").unwrap(), "dQw4w9WgXcQ");
}

#[test]
fn valid_id_with_hyphen_underscore() {
    assert_eq!(extract_video_id("abc-_123ABC").unwrap(), "abc-_123ABC");
}

#[test]
fn full_youtube_url() {
    let result = extract_video_id("https://www.youtube.com/watch?v=dQw4w9WgXcQ");
    assert_eq!(result.unwrap(), "dQw4w9WgXcQ");
}

#[test]
fn youtube_url_with_extra_params() {
    let result = extract_video_id("https://www.youtube.com/watch?v=dQw4w9WgXcQ&t=42s");
    assert_eq!(result.unwrap(), "dQw4w9WgXcQ");
}

#[test]
fn short_url() {
    let result = extract_video_id("https://youtu.be/dQw4w9WgXcQ");
    assert_eq!(result.unwrap(), "dQw4w9WgXcQ");
}

#[test]
fn url_without_protocol() {
    let result = extract_video_id("youtube.com/watch?v=dQw4w9WgXcQ");
    assert_eq!(result.unwrap(), "dQw4w9WgXcQ");
}

#[test]
fn url_without_www() {
    let result = extract_video_id("https://youtube.com/watch?v=dQw4w9WgXcQ");
    assert_eq!(result.unwrap(), "dQw4w9WgXcQ");
}

#[test]
fn input_with_whitespace() {
    assert_eq!(extract_video_id("  dQw4w9WgXcQ  ").unwrap(), "dQw4w9WgXcQ");
}

#[test]
fn invalid_domain() {
    let result = extract_video_id("https://vimeo.com/12345");
    assert!(result.is_err());
}

#[test]
fn missing_v_param() {
    let result = extract_video_id("https://youtube.com/watch");
    assert!(result.is_err());
}

#[test]
fn invalid_id_too_short() {
    let result = extract_video_id("tooshort");
    assert!(result.is_err());
}

#[test]
fn invalid_id_too_long() {
    let result = extract_video_id("waytoolongforavideoid");
    assert!(result.is_err());
}

#[test]
fn invalid_characters_in_id() {
    let result = extract_video_id("abc def!@#$");
    assert!(result.is_err());
}

#[test]
fn shorts_url() {
    let result = extract_video_id("https://www.youtube.com/shorts/dQw4w9WgXcQ");
    assert_eq!(result.unwrap(), "dQw4w9WgXcQ");
}

#[test]
fn shorts_url_with_query_params() {
    let result = extract_video_id("https://www.youtube.com/shorts/dQw4w9WgXcQ?feature=share");
    assert_eq!(result.unwrap(), "dQw4w9WgXcQ");
}

#[test]
fn live_url() {
    let result = extract_video_id("https://www.youtube.com/live/dQw4w9WgXcQ");
    assert_eq!(result.unwrap(), "dQw4w9WgXcQ");
}

#[test]
fn live_url_with_timestamp() {
    let result = extract_video_id("https://www.youtube.com/live/dQw4w9WgXcQ?t=123");
    assert_eq!(result.unwrap(), "dQw4w9WgXcQ");
}

#[test]
fn embed_url() {
    let result = extract_video_id("https://www.youtube.com/embed/dQw4w9WgXcQ");
    assert_eq!(result.unwrap(), "dQw4w9WgXcQ");
}

#[test]
fn embed_url_with_params() {
    let result = extract_video_id("https://www.youtube.com/embed/dQw4w9WgXcQ?autoplay=1");
    assert_eq!(result.unwrap(), "dQw4w9WgXcQ");
}

#[test]
fn v_path_url() {
    let result = extract_video_id("https://www.youtube.com/v/dQw4w9WgXcQ");
    assert_eq!(result.unwrap(), "dQw4w9WgXcQ");
}

#[test]
fn e_path_url() {
    let result = extract_video_id("https://www.youtube.com/e/dQw4w9WgXcQ");
    assert_eq!(result.unwrap(), "dQw4w9WgXcQ");
}

#[test]
fn channel_handle_url_error() {
    let result = extract_video_id("https://www.youtube.com/@SomeChannel");
    assert!(result.is_err());
    assert!(result
        .unwrap_err()
        .message()
        .contains("Channel URLs are not supported"));
}

#[test]
fn channel_id_url_error() {
    let result = extract_video_id("https://www.youtube.com/channel/UCxxxxxxxx");
    assert!(result.is_err());
    assert!(result
        .unwrap_err()
        .message()
        .contains("Channel URLs are not supported"));
}

#[test]
fn channel_c_url_error() {
    let result = extract_video_id("https://www.youtube.com/c/SomeChannel");
    assert!(result.is_err());
    assert!(result
        .unwrap_err()
        .message()
        .contains("Channel URLs are not supported"));
}

#[test]
fn channel_user_url_error() {
    let result = extract_video_id("https://www.youtube.com/user/SomeUser");
    assert!(result.is_err());
    assert!(result
        .unwrap_err()
        .message()
        .contains("Channel URLs are not supported"));
}

#[test]
fn playlist_url_error() {
    let result = extract_video_id("https://www.youtube.com/playlist?list=PLxxxxxxxxxx");
    assert!(result.is_err());
    assert!(result
        .unwrap_err()
        .message()
        .contains("Playlist URLs are not supported"));
}

#[test]
fn search_results_url_error() {
    let result = extract_video_id("https://www.youtube.com/results?search_query=test");
    assert!(result.is_err());
    assert!(result
        .unwrap_err()
        .message()
        .contains("Search result URLs are not supported"));
}

#[test]
fn build_canonical_url_test() {
    assert_eq!(
        build_canonical_url("dQw4w9WgXcQ"),
        "https://www.youtube.com/watch?v=dQw4w9WgXcQ"
    );
}

#[test]
fn watch_url_with_playlist_param() {
    let result = extract_video_id("https://www.youtube.com/watch?v=dQw4w9WgXcQ&list=PLxxx");
    assert_eq!(result.unwrap(), "dQw4w9WgXcQ");
}

#[test]
fn watch_path_url() {
    let result = extract_video_id("https://www.youtube.com/watch/-wtIMTCHWuI");
    assert_eq!(result.unwrap(), "-wtIMTCHWuI");
}

#[test]
fn watch_path_url_with_query() {
    let result = extract_video_id("https://www.youtube.com/watch/-wtIMTCHWuI?app=desktop");
    assert_eq!(result.unwrap(), "-wtIMTCHWuI");
}

#[test]
fn mobile_watch_url() {
    let result = extract_video_id("https://m.youtube.com/watch?v=lalOy8Mbfdc");
    assert_eq!(result.unwrap(), "lalOy8Mbfdc");
}

#[test]
fn mobile_shorts_url() {
    let result = extract_video_id("https://m.youtube.com/shorts/j9rZxAF3C0I");
    assert_eq!(result.unwrap(), "j9rZxAF3C0I");
}

#[test]
fn youtu_be_with_si_param() {
    let result = extract_video_id("https://youtu.be/M9bq_alk-sw?si=B_RZg_I-lLaa7UU-");
    assert_eq!(result.unwrap(), "M9bq_alk-sw");
}

#[test]
fn watch_url_v_not_first_param() {
    let result =
        extract_video_id("https://www.youtube.com/watch?feature=player_embedded&v=dQw4w9WgXcQ");
    assert_eq!(result.unwrap(), "dQw4w9WgXcQ");
}

#[test]
fn music_youtube_watch_url() {
    let result = extract_video_id("https://music.youtube.com/watch?v=dQw4w9WgXcQ");
    assert_eq!(result.unwrap(), "dQw4w9WgXcQ");
}

#[test]
fn music_youtube_with_params() {
    let result = extract_video_id("https://music.youtube.com/watch?v=dQw4w9WgXcQ&list=RDAMVM123");
    assert_eq!(result.unwrap(), "dQw4w9WgXcQ");
}

#[test]
fn http_watch_url() {
    let result = extract_video_id("http://www.youtube.com/watch?v=dQw4w9WgXcQ");
    assert_eq!(result.unwrap(), "dQw4w9WgXcQ");
}

#[test]
fn http_youtu_be_url() {
    let result = extract_video_id("http://youtu.be/-wtIMTCHWuI");
    assert_eq!(result.unwrap(), "-wtIMTCHWuI");
}

#[test]
fn watch_url_with_fragment_timestamp() {
    let result = extract_video_id("https://www.youtube.com/watch?v=0zM3nApSvMg#t=0m10s");
    assert_eq!(result.unwrap(), "0zM3nApSvMg");
}

#[test]
fn invalid_youtu_be_url() {
    let result = extract_video_id("https://youtu.be/tooshort");
    assert!(result.is_err());
    assert!(result
        .unwrap_err()
        .message()
        .contains("Invalid video ID in youtu.be URL"));
}

#[test]
fn youtu_be_empty_path() {
    let result = extract_video_id("https://youtu.be/");
    assert!(result.is_err());
}

#[test]
fn malformed_url() {
    let result = extract_video_id("not://a:valid:url");
    assert!(result.is_err());
}

#[test]
fn playlist_only_url_error() {
    let result = extract_video_id("https://www.youtube.com/watch?list=PLxxxxxxxxxx");
    assert!(result.is_err());
    assert!(result
        .unwrap_err()
        .message()
        .contains("Playlist URLs are not supported"));
}

#[test]
fn id_format_check_is_exact() {
    assert!(is_valid_id_format("dQw4w9WgXcQ"));
    assert!(!is_valid_id_format("dQw4w9WgXc"));
    assert!(!is_valid_id_format("dQw4w9WgXcQQ"));
    assert!(!is_valid_id_format("dQw4w9WgXc!"));
}

#[test]
fn watch_v_param_with_bad_id_is_rejected() {
    let result = extract_video_id("https://www.youtube.com/watch?v=short");
    assert!(result.is_err());
    assert!(result.unwrap_err().message().contains("Extracted ID is invalid"));
}

#[test]
fn url_without_host_is_rejected() {
    let result = extract_video_id("file:///tmp/video");
    assert!(result.is_err());
}
