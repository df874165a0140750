use emailclient::cache::{cache_file_name, cache_home, CacheHome, EnvelopeCache};
use emailclient::types::MessageHeader;

fn hdr(uid: u32, subject: &str) -> MessageHeader {
    MessageHeader {
        uid,
        from: "alice@example.com".to_owned(),
        subject: subject.to_owned(),
        date: "2025-01-01".to_owned(),
        seen: true,
        flagged: false,
        message_id: format!("<msg{uid}@example.com>"),
    }
}

#[test]
fn test_cache_miss_returns_none_uidvalidity() {
    let cache = EnvelopeCache::new();
    assert_eq!(cache.get_uidvalidity("INBOX"), None);
}

#[test]
fn test_upsert_and_get_latest() {
    let mut cache = EnvelopeCache::new();
    cache.invalidate_folder("INBOX", 42);
    let msgs = vec![hdr(1, "A"), hdr(2, "B"), hdr(3, "C")];
    cache.upsert_all("INBOX", &msgs);
    let latest = cache.get_latest("INBOX", 2);
    // Most-recent-first by UID.
    assert_eq!(latest.len(), 2);
    assert_eq!(latest[0].uid, 3);
    assert_eq!(latest[1].uid, 2);
}

#[test]
fn test_invalidate_flushes_envelopes() {
    let mut cache = EnvelopeCache::new();
    cache.invalidate_folder("INBOX", 1);
    cache.upsert_all("INBOX", &[hdr(1, "A")]);
    assert_eq!(cache.get_latest("INBOX", 10).len(), 1);
    cache.invalidate_folder("INBOX", 2);
    assert_eq!(cache.get_latest("INBOX", 10).len(), 0);
    assert_eq!(cache.get_uidvalidity("INBOX"), Some(2));
}

#[test]
fn test_cached_count_matches_upserted() {
    let mut cache = EnvelopeCache::new();
    cache.invalidate_folder("INBOX", 5);
    cache.upsert_all("INBOX", &[hdr(1, "A"), hdr(2, "B")]);
    assert_eq!(cache.cached_count("INBOX"), 2);
}

#[test]
fn test_max_uid() {
    let mut cache = EnvelopeCache::new();
    cache.invalidate_folder("INBOX", 1);
    cache.upsert_all("INBOX", &[hdr(10, "A"), hdr(20, "B"), hdr(5, "C")]);
    assert_eq!(cache.max_uid("INBOX"), Some(20));
}

#[test]
fn test_update_flags() {
    let mut cache = EnvelopeCache::new();
    cache.invalidate_folder("INBOX", 1);
    cache.upsert_all("INBOX", &[hdr(1, "A")]);
    cache.update_flags("INBOX", 1, false, true);
    let latest = cache.get_latest("INBOX", 1);
    assert!(!latest[0].seen);
    assert!(latest[0].flagged);
}

#[test]
fn test_remove_decrements_count() {
    let mut cache = EnvelopeCache::new();
    cache.invalidate_folder("INBOX", 1);
    cache.upsert_all("INBOX", &[hdr(1, "A"), hdr(2, "B")]);
    cache.remove("INBOX", 1);
    assert_eq!(cache.cached_count("INBOX"), 1);
    assert!(cache.get_latest("INBOX", 10).iter().all(|h| h.uid == 2));
}

#[test]
fn test_the_cache_survives_reopening() {
    let saved = {
        let mut cache = EnvelopeCache::new();
        cache.invalidate_folder("INBOX", 7);
        cache.upsert_all("INBOX", &[hdr(1, "A"), hdr(2, "B")]);
        cache.patch_flags("INBOX", 2, Some(false), None);
        assert!(cache.take_unsaved());
        cache.saved().clone()
    };
    let cache = EnvelopeCache::from_saved(saved);
    assert_eq!(cache.get_uidvalidity("INBOX"), Some(7));
    assert_eq!(cache.cached_count("INBOX"), 2);
    let latest = cache.get_latest("INBOX", 10);
    assert_eq!(latest[0].uid, 2);
    assert!(!latest[0].seen, "a flag change is kept too");
    assert_eq!(latest[0].message_id, "<msg2@example.com>");
}

#[test]
fn a_change_is_saved_once() {
    let mut cache = EnvelopeCache::new();
    assert!(!cache.take_unsaved());
    cache.invalidate_folder("INBOX", 7);
    assert!(cache.take_unsaved());
    assert!(!cache.take_unsaved());
    // Nothing is cached under this UID, so nothing changes.
    cache.patch_flags("INBOX", 9, Some(true), None);
    assert!(!cache.take_unsaved());
    cache.remove("Archive", 1);
    assert!(!cache.take_unsaved());
    cache.remove("INBOX", 1);
    assert!(cache.take_unsaved());
}

#[test]
fn folders_do_not_share_envelopes() {
    let mut cache = EnvelopeCache::new();
    cache.upsert_all("INBOX", &[hdr(1, "A"), hdr(2, "B")]);
    cache.upsert_all("Archive", &[hdr(1, "C")]);
    cache.invalidate_folder("INBOX", 3);
    assert_eq!(cache.cached_count("INBOX"), 0);
    assert_eq!(cache.max_uid("INBOX"), None);
    assert_eq!(cache.cached_count("Archive"), 1);
    assert_eq!(cache.get_latest("Archive", 5)[0].subject, "C");
    assert_eq!(cache.get_uidvalidity("Archive"), Some(0));
    assert_eq!(cache.max_uid("Sent"), None);
    assert_eq!(cache.get_latest("Sent", 5).len(), 0);
}

#[test]
fn the_last_envelope_under_a_uid_stays() {
    let mut cache = EnvelopeCache::new();
    cache.upsert_all("INBOX", &[hdr(1, "A"), hdr(1, "B")]);
    assert_eq!(cache.cached_count("INBOX"), 1);
    assert_eq!(cache.get_latest("INBOX", 5)[0].subject, "B");
    cache.upsert_all("INBOX", &[hdr(2, "C"), hdr(1, "D")]);
    let latest = cache.get_latest("INBOX", 5);
    assert_eq!(latest.len(), 2);
    assert_eq!(latest[0].subject, "C");
    assert_eq!(latest[1].subject, "D");
}

#[test]
fn a_listing_stops_at_its_limit() {
    let mut cache = EnvelopeCache::new();
    cache.upsert_all("INBOX", &[hdr(4, "A"), hdr(9, "B"), hdr(6, "C")]);
    assert_eq!(cache.get_latest("INBOX", 0).len(), 0);
    let uids: Vec<u32> = cache.get_latest("INBOX", 2).iter().map(|h| h.uid).collect();
    assert_eq!(uids, vec![9, 6]);
    let uids: Vec<u32> = cache.get_latest("INBOX", 9).iter().map(|h| h.uid).collect();
    assert_eq!(uids, vec![9, 6, 4]);
}

#[test]
fn a_cache_file_is_named_by_the_bytes_of_its_account() {
    assert_eq!(cache_file_name("a@b.c"), "614062 2e63.json".replace(' ', ""));
    assert_eq!(cache_file_name("é"), "c3a9.json");
    assert_eq!(cache_file_name(""), ".json");
    assert_ne!(cache_file_name("me"), cache_file_name("Me"));
}

#[test]
fn the_cache_lives_under_the_first_home_there_is() {
    assert_eq!(cache_home(true, true), CacheHome::Xdg);
    assert_eq!(cache_home(true, false), CacheHome::Xdg);
    assert_eq!(cache_home(false, true), CacheHome::Home);
    assert_eq!(cache_home(false, false), CacheHome::Nowhere);
}

#[test]
fn a_saved_cache_reads_back_in_any_order() {
    let mut cache = EnvelopeCache::new();
    cache.upsert_all("INBOX", &[hdr(1, "A")]);
    cache.upsert_all("Archive", &[hdr(2, "B"), hdr(3, "C")]);
    let mut saved = cache.saved().clone();
    saved.reverse();
    let read = EnvelopeCache::from_saved(saved);
    assert_eq!(read.cached_count("INBOX"), 1);
    assert_eq!(read.cached_count("Archive"), 2);
    assert_eq!(read.get_latest("Archive", 1)[0].subject, "C");
}
