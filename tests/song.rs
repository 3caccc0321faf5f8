use pipedash::song::{parse_i32, Song, SongRequestError, SongResponse};

#[test]
fn response_fields_by_position() {
    let text = "1~|~467339~|~2~|~At the Speed of Light~|~3~|~51~|~4~|~Dimrain47~|~5~|~9.56~|~6~|~~|~7~|~UCfoo~|~8~|~1~|~9~|~12~|~10~|~https%3A%2F%2Faudio.example%2F467339.mp3";
    let r = SongResponse::parse(text).unwrap();
    assert_eq!(r.id(), Some(467339));
    assert_eq!(r.name(), Some("At the Speed of Light"));
    assert_eq!(r.artist_id(), Some(51));
    assert_eq!(r.artist_name(), Some("Dimrain47"));
    assert_eq!(r.size(), None);
    assert_eq!(r.video_id(), Some(""));
    assert_eq!(r.youtube_url(), Some("UCfoo"));
    assert_eq!(r.song_priority(), Some(12));
    assert_eq!(r.download_link().as_deref(), Some("https://audio.example/467339.mp3"));
}

#[test]
fn response_missing_fields_and_trailing_token() {
    let r = SongResponse::parse("2~|~Name~|~4").unwrap();
    assert_eq!(r.name(), Some("Name"));
    assert_eq!(r.id(), None);
    assert_eq!(r.artist_name(), None);
    assert_eq!(r.download_link(), None);
}

#[test]
fn response_bad_index_is_parse_failure() {
    assert_eq!(SongResponse::parse("x~|~1").unwrap_err(), SongRequestError::ParseFailure);
    assert_eq!(SongResponse::parse("0~|~1").unwrap_err(), SongRequestError::ParseFailure);
    assert_eq!(SongResponse::parse("11~|~1").unwrap_err(), SongRequestError::ParseFailure);
    assert_eq!(
        SongResponse::parse("1~|~5~|~-2~|~z").unwrap_err(),
        SongRequestError::ParseFailure
    );
    assert!(SongResponse::parse("+1~|~5").is_ok());
}

#[test]
fn later_field_wins() {
    let r = SongResponse::parse("1~|~5~|~1~|~6").unwrap();
    assert_eq!(r.id(), Some(6));
}

#[test]
fn download_link_bad_utf8_is_none() {
    let r = SongResponse::parse("10~|~%FF%FE").unwrap();
    assert_eq!(r.download_link(), None);
    let r = SongResponse::parse("10~|~plain").unwrap();
    assert_eq!(r.download_link().as_deref(), Some("plain"));
}

#[test]
fn i32_parsing() {
    assert_eq!(parse_i32("-2147483648"), Some(i32::MIN));
    assert_eq!(parse_i32("2147483647"), Some(i32::MAX));
    assert_eq!(parse_i32("2147483648"), None);
    assert_eq!(parse_i32("+12"), Some(12));
    assert_eq!(parse_i32("-"), None);
    assert_eq!(parse_i32("1.0"), None);
    assert_eq!(parse_i32(""), None);
}

#[test]
fn only_newgrounds_songs_have_metadata() {
    assert_eq!(Song::Newgrounds { id: 7 }.newgrounds_id(), Ok(7));
    assert_eq!(
        Song::Official { id: 7 }.newgrounds_id(),
        Err(SongRequestError::NotNewgrounds)
    );
    assert_eq!(Song::Unknown.newgrounds_id(), Err(SongRequestError::NotNewgrounds));
}

#[test]
fn download_link_keeps_malformed_escapes() {
    let r = SongResponse::parse("10~|~%41%zz%4~|~9~|~1").unwrap();
    assert_eq!(r.download_link().as_deref(), Some("A%zz%4"));
    let r = SongResponse::parse("10~|~%%41+%c3%a9").unwrap();
    assert_eq!(r.download_link().as_deref(), Some("%A+é"));
}
