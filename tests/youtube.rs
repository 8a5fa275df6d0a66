use rs_lib::youtube;

#[test]
fn youtube_tests() {
    assert_eq!("https://youtu.be/2BO83Ig-E8E", youtube::short_to_video("https://youtu.be/2BO83Ig-E8E"));
    assert_eq!("https://youtube.com/watch?v=60gZOXu5gcQ?si=EkAu2o2eUgp4SZV-", youtube::short_to_video("https://youtube.com/shorts/60gZOXu5gcQ?si=EkAu2o2eUgp4SZV-"));
    assert_eq!("https://www.youtube.com/watch?v=H3O6-SHr2fc", youtube::short_to_video("https://www.youtube.com/shorts/H3O6-SHr2fc"));
    assert_eq!("https://www.youtube.com/watch?v=HCE_lFUMXNg", youtube::short_to_video("https://www.youtube.com/watch?v=HCE_lFUMXNg"));

    assert_eq!("https://youtu.be/2BO83Ig-E8E", youtube::remove_tracking_parameters("https://youtu.be/2BO83Ig-E8E"));
    assert_eq!("https://youtube.com/shorts/60gZOXu5gcQ", youtube::remove_tracking_parameters("https://youtube.com/shorts/60gZOXu5gcQ?si=EkAu2o2eUgp4SZV-"));
    assert_eq!("https://www.youtube.com/shorts/H3O6-SHr2fc", youtube::remove_tracking_parameters("https://www.youtube.com/shorts/H3O6-SHr2fc"));
    assert_eq!("https://www.youtube.com/watch?v=HCE_lFUMXNg", youtube::remove_tracking_parameters("https://www.youtube.com/watch?si=EkAu2o2eUgp4SZV-&v=HCE_lFUMXNg"));
    assert_eq!("https://www.youtube.com/watch?v=HCE_lFUMXNg", youtube::remove_tracking_parameters("https://www.youtube.com/watch?v=HCE_lFUMXNg&si=EkAu2o2eUgp4SZV-"));

    assert_eq!("https://youtube.com/shorts/60gZOXu5gcQ", youtube::remove_tracking_parameters("https://youtube.com/shorts/60gZOXu5gcQ?pp=EkAu2o2eUgp4SZV-"));
    assert_eq!("https://www.youtube.com/watch?v=HCE_lFUMXNg", youtube::remove_tracking_parameters("https://www.youtube.com/watch?pp=EkAu2o2eUgp4SZV-&v=HCE_lFUMXNg"));
    assert_eq!("https://www.youtube.com/watch?v=vWLUMXNhWANg", youtube::remove_tracking_parameters("https://www.youtube.com/watch?v=vWLUMXNhWANg&pp=ygUhamltIGdyZWVuIGFu2o2eYW4gcmFuZ2VyIGJhcmVmb290"));

    assert_eq!("https://www.youtube.com/watch?v=HCE_lFUMXNg", youtube::remove_tracking_parameters("https://www.youtube.com/watch?si=EkAu2o2eUgp4SZV-&v=HCE_lFUMXNg&pp=EkAu2o2eUgp4SZV-"));
    assert_eq!("https://www.youtube.com/watch?v=HCE_lFUMXNg", youtube::remove_tracking_parameters("https://www.youtube.com/watch?v=HCE_lFUMXNg&pp=EkAu2o2eUgp4SZV-&si=EkAu2o2eUgp4SZV-"));
}

#[test]
fn recognises_youtube_prefixes_only() {
    assert!(youtube::is_youtube_url("https://www.youtube.com/watch?v=x"));
    assert!(youtube::is_youtube_url("https://youtube.com/"));
    assert!(youtube::is_youtube_url("https://youtu.be/abc"));
    assert!(!youtube::is_youtube_url("http://youtube.com/"));
    assert!(!youtube::is_youtube_url("https://example.com/shorts/x"));
    assert!(!youtube::is_youtube_url(""));
}

#[test]
fn other_links_are_left_alone() {
    assert_eq!("https://example.com/shorts/x", youtube::short_to_video("https://example.com/shorts/x"));
    assert_eq!("https://example.com/a?si=1", youtube::remove_tracking_parameters("https://example.com/a?si=1"));
}

#[test]
fn every_shorts_segment_is_replaced() {
    assert_eq!(
        "https://youtube.com/watch?v=watch?v=a",
        youtube::short_to_video("https://youtube.com/shorts/shorts/a")
    );
}

#[test]
fn parameters_named_like_tracking_ones_but_longer_stay() {
    assert_eq!(
        "https://youtu.be/a?sid=1&v=2",
        youtube::remove_tracking_parameters("https://youtu.be/a?sid=1&si=3&v=2")
    );
    assert_eq!("https://youtu.be/a", youtube::remove_tracking_parameters("https://youtu.be/a?si"));
    assert_eq!("https://youtu.be/a", youtube::remove_tracking_parameters("https://youtu.be/a?"));
}
