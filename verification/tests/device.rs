//! The operations against a device held in memory. It reports free space as capacity
//! minus what it holds, and counts an overhead per file.

use kindlefill_core::engine::{
    self, find_fill_dir, find_filler_folders, list_fillers, list_foreign, list_staged_updates,
    Answer, Ask, Clean, CleanReport, DeletedKind, Entry, ErrorKind, Event, Fill, FillError,
    FillerFolder, MtpError, NameError, Outcome, Purge, Reply, Request, RootEntry, Updates,
    INFLIGHT_MARKER,
};
use kindlefill_core::mass_storage::Space;
use kindlefill_core::meter::{Meter, Report};
use kindlefill_core::plan::MIB;
use kindlefill_core::rate::{Duration, FillProgress};
use kindlefill_core::{Window, ZeroStream};

const CAPACITY: u64 = 64 * MIB;
const DIR: &str = engine::DEFAULT_FILL_DIR;
const ROOT: u64 = 0;

struct Node {
    id: u64,
    parent: u64,
    name: String,
    bytes: u64,
    is_dir: bool,
}

struct Device {
    nodes: Vec<Node>,
    next_id: u64,
    capacity: u64,
    overhead: u64,
    writable: bool,
    /// Names that a deletion leaves in place.
    stubborn: Vec<String>,
    /// The write, counted from one, that the caller stops.
    stop_during: Option<usize>,
    /// The write, counted from one, after which the caller asks to stop.
    stop_after: Option<usize>,
    /// The write, counted from one, that fails.
    break_during: Option<usize>,
    /// The reading, counted from one, from which on space is no longer reported.
    lose_space_at: Option<usize>,
    stop: bool,
    writes: usize,
    readings: usize,
    clock_millis: u64,
    log: Vec<String>,
}

fn device() -> Device {
    Device {
        nodes: vec![],
        next_id: 1,
        capacity: CAPACITY,
        overhead: 0,
        writable: true,
        stubborn: vec![],
        stop_during: None,
        stop_after: None,
        break_during: None,
        lose_space_at: None,
        stop: false,
        writes: 0,
        readings: 0,
        clock_millis: 0,
        log: vec![],
    }
}

fn window() -> Window {
    Window::new(8 * MIB, 16 * MIB).unwrap()
}

fn broken() -> FillError {
    FillError::Mtp(MtpError {
        kind: ErrorKind::Timeout,
        text: "timed out".to_string(),
    })
}

impl Device {
    fn free(&self) -> u64 {
        let used: u64 = self
            .nodes
            .iter()
            .map(|n| n.bytes + if n.is_dir { 0 } else { self.overhead })
            .sum();
        self.capacity.saturating_sub(used)
    }

    fn measure(&mut self) -> Space {
        self.readings += 1;
        if self.lose_space_at.is_some_and(|n| self.readings >= n) {
            return Space { total: 0, free: 0 };
        }
        Space {
            total: self.capacity,
            free: self.free(),
        }
    }

    fn put(&mut self, parent: u64, name: &str, bytes: u64) -> u64 {
        let id: u64 = self.next_id;
        self.next_id += 1;
        self.nodes.push(Node {
            id,
            parent,
            name: name.to_string(),
            bytes,
            is_dir: false,
        });
        id
    }

    fn make_dir(&mut self, parent: u64, name: &str) -> u64 {
        let id: u64 = self.put(parent, name, 0);
        self.nodes.last_mut().unwrap().is_dir = true;
        id
    }

    fn list(&self, parent: u64) -> Vec<Entry> {
        self.nodes
            .iter()
            .filter(|n| n.parent == parent)
            .map(|n| Entry {
                id: n.id,
                name: n.name.clone(),
                bytes: n.bytes,
                is_dir: n.is_dir,
                is_file: !n.is_dir,
            })
            .collect()
    }

    fn root(&self) -> Vec<RootEntry> {
        self.list(ROOT)
            .into_iter()
            .map(|entry| {
                let contents = if entry.is_dir {
                    Some(self.list(entry.id))
                } else {
                    None
                };
                RootEntry { entry, contents }
            })
            .collect()
    }

    fn dir(&self, name: &str) -> Option<u64> {
        find_fill_dir(&self.list(ROOT), name).map(|e| e.id)
    }

    fn names(&self, parent: u64) -> Vec<String> {
        let mut names: Vec<String> = self.list(parent).into_iter().map(|e| e.name).collect();
        names.sort();
        names
    }

    fn delete(&mut self, id: u64) -> bool {
        let node = self.nodes.iter().find(|n| n.id == id).unwrap();
        if self.stubborn.contains(&node.name) {
            return false;
        }
        assert!(
            self.nodes.iter().all(|n| n.parent != id),
            "a folder with children cannot be deleted"
        );
        self.log.push(format!("delete {}", node.name));
        self.nodes.retain(|n| n.id != id);
        true
    }

    fn scan(&self) -> Vec<FillerFolder> {
        find_filler_folders(&self.root())
    }

    /// Send an object out chunk by chunk.
    fn write(
        &mut self,
        parent: u64,
        name: &str,
        bytes: u64,
        meter: &mut Meter,
        events: &mut Vec<Event>,
    ) -> Reply {
        self.writes += 1;
        self.log.push(format!("write {name}"));
        assert!(
            self.list(parent).iter().all(|e| e.name != name),
            "{name} is already there"
        );
        let mut stream = ZeroStream::new(bytes);
        let mut sent: u64 = 0;
        while let Some(chunk) = stream.next_chunk() {
            sent += chunk.len() as u64;
            self.clock_millis += 40;
            if self.stop_during == Some(self.writes) && sent > bytes / 2 {
                self.stop = true;
            }
            match meter.report(sent, Duration::from_millis(self.clock_millis), self.stop) {
                Report::Stop => {
                    let partial: u64 = self.put(parent, name, sent);
                    return Reply::Stopped {
                        partial: Some(partial),
                    };
                }
                Report::Quiet => {}
                Report::Show(p) => events.push(Event::Progress(p)),
            }
            if self.break_during == Some(self.writes) {
                let partial: u64 = self.put(parent, name, sent);
                return Reply::Broken {
                    partial: Some(partial),
                    error: broken(),
                };
            }
        }
        self.put(parent, name, bytes);
        if self.stop_after == Some(self.writes) {
            self.stop = true;
        }
        Reply::Wrote
    }

    fn fill(&mut self, window: Window, dir_name: &str) -> (Result<Outcome, FillError>, Vec<Event>) {
        let mut events: Vec<Event> = vec![];
        let mut fill = match Fill::new(window, dir_name) {
            Ok(fill) => fill,
            Err(e) => return (Err(e), events),
        };
        let mut meter = Meter::new();
        loop {
            let folder = self.dir(dir_name);
            let reply = match fill.request() {
                Request::CheckWritable => {
                    if self.writable {
                        Reply::Writable
                    } else {
                        Reply::ReadOnly {
                            description: "Internal Storage".to_string(),
                        }
                    }
                }
                Request::Measure => Reply::Measured {
                    space: self.measure(),
                    cancelled: self.stop,
                },
                Request::ListFolder => {
                    Reply::Listing(folder.map_or_else(Vec::new, |id| self.list(id)))
                }
                Request::ListRoot => Reply::Root(self.root()),
                Request::EnsureFolder => {
                    if folder.is_none() {
                        self.make_dir(ROOT, dir_name);
                    }
                    Reply::Done
                }
                Request::Mark => {
                    let folder: u64 = folder.unwrap();
                    if self.list(folder).iter().all(|e| e.name != INFLIGHT_MARKER) {
                        self.put(folder, INFLIGHT_MARKER, 0);
                        self.log.push("mark".to_string());
                    }
                    Reply::Done
                }
                Request::Delete(entry) => Reply::Deleted {
                    gone: self.delete(entry.id),
                },
                Request::Write {
                    name,
                    bytes,
                    committed,
                    total,
                } => {
                    meter.begin(committed, total);
                    self.write(folder.unwrap(), &name, bytes, &mut meter, &mut events)
                }
                Request::Discard { partial } => {
                    if self.delete(partial) {
                        Reply::Done
                    } else {
                        Reply::Failed(broken())
                    }
                }
                Request::Unmark => {
                    let marker = self
                        .list(folder.unwrap())
                        .into_iter()
                        .find(|e| e.name == INFLIGHT_MARKER);
                    if let Some(marker) = marker {
                        self.nodes.retain(|n| n.id != marker.id);
                        self.log.push("unmark".to_string());
                    }
                    Reply::Done
                }
                Request::Finish => return (fill.result().unwrap(), events),
            };
            let (next, happened) = fill.reply(reply);
            fill = next;
            events.extend(happened);
        }
    }

    fn answer(&mut self, ask: Ask) -> Option<Answer> {
        match ask {
            Ask::ListRoot => Some(Answer::Listing(self.list(ROOT))),
            Ask::List(folder) => Some(Answer::Listing(self.list(folder.id))),
            Ask::Delete(entry) => Some(Answer::Deleted {
                gone: self.delete(entry.id),
            }),
            Ask::Measure => Some(Answer::Measured {
                free: self.measure().free,
            }),
            Ask::Finish => None,
        }
    }

    fn clean(&mut self, dir_name: &str) -> (Result<CleanReport, FillError>, Vec<Event>) {
        let mut events: Vec<Event> = vec![];
        let mut clean = match Clean::new(dir_name) {
            Ok(clean) => clean,
            Err(e) => return (Err(e), events),
        };
        while let Some(answer) = self.answer(clean.ask()) {
            let (next, happened) = clean.answer(answer);
            clean = next;
            events.extend(happened);
        }
        (clean.result().unwrap(), events)
    }

    fn run_purge(&mut self, purge: Purge) -> (Result<usize, FillError>, Vec<Event>) {
        let mut events: Vec<Event> = vec![];
        let mut purge = purge;
        while let Some(answer) = self.answer(purge.ask()) {
            let (next, happened) = purge.answer(answer);
            purge = next;
            events.extend(happened);
        }
        (purge.result().unwrap(), events)
    }

    fn purge(&mut self, dir_name: &str) -> (Result<usize, FillError>, Vec<Event>) {
        let purge = Purge::new(dir_name).unwrap();
        self.run_purge(purge)
    }

    fn delete_updates(&mut self, names: Vec<String>) -> (Result<Vec<Entry>, FillError>, Vec<Event>) {
        let mut events: Vec<Event> = vec![];
        let mut updates = Updates::new(names);
        while let Some(answer) = self.answer(updates.ask()) {
            let (next, happened) = updates.answer(answer);
            updates = next;
            events.extend(happened);
        }
        (updates.result().unwrap(), events)
    }
}

fn filler_names(d: &Device, dir: u64) -> Vec<String> {
    list_fillers(&d.list(dir)).into_iter().map(|e| e.name).collect()
}

fn written(events: &[Event]) -> usize {
    events
        .iter()
        .filter(|e| matches!(e, Event::Wrote { .. }))
        .count()
}

#[test]
fn fill_lands_inside_the_window() {
    for overhead in [0, 512, 4096, 64 * 1024u64] {
        let mut d = device();
        d.overhead = overhead;
        let w = window();
        let (outcome, _) = d.fill(w, DIR);
        match outcome.unwrap() {
            Outcome::InWindow { free } => {
                assert!(w.contains(free), "landed at {free}, outside the window");
            }
            other => panic!("expected InWindow, got {other:?}"),
        }
        // And the device agrees, independently of what fill reported.
        assert!(w.contains(d.free()));
    }
}

#[test]
fn fill_creates_the_fill_disk_folder_and_reports_progress() {
    let mut d = device();
    let (outcome, events) = d.fill(window(), DIR);
    outcome.unwrap();
    assert!(written(&events) > 0, "should have written at least one object");
    let dir = find_fill_dir(&d.list(ROOT), DIR).expect("fill_disk should exist");
    assert_eq!(dir.name, DIR);
    assert_eq!(list_fillers(&d.list(dir.id)).len(), written(&events));
    // Nothing but filler is left in it.
    assert_eq!(d.list(dir.id).len(), written(&events));
}

#[test]
fn clean_reclaims_everything_fill_consumed() {
    let mut d = device();
    let before: u64 = d.free();
    d.fill(window(), DIR).0.unwrap();
    assert!(d.free() < before);
    let (report, events) = d.clean(DIR);
    let report = report.unwrap();
    assert_eq!(d.free(), before, "should fully reclaim");
    assert!(d.dir(DIR).is_none(), "empty fill_disk should be removed too");
    assert_eq!(report.free, before);
    assert_eq!(events.len(), report.removed + 1);
    assert!(matches!(events.last(), Some(Event::Finished { free }) if *free == before));
}

#[test]
fn progress_reporting_is_bounded_monotonic_and_complete() {
    let mut d = device();
    let w = window();
    let before: u64 = d.free();
    let (outcome, events) = d.fill(w, DIR);
    outcome.unwrap();
    let mut announced_total: Option<u64> = None;
    let mut samples: Vec<FillProgress> = Vec::new();
    let mut objects: usize = 0;
    for event in events {
        match event {
            Event::Started { total, .. } => announced_total = Some(total),
            Event::Progress(p) => samples.push(p),
            Event::Wrote { .. } => objects += 1,
            _ => {}
        }
    }
    // The advertised job size is what the loop actually set out to move.
    assert_eq!(announced_total, Some(before - w.aim()));
    // Every object reports at least once, so the bar never sits silent through a write.
    assert!(
        samples.len() >= objects,
        "{} progress events for {objects} objects",
        samples.len()
    );
    for p in &samples {
        assert_eq!(p.total, announced_total.unwrap(), "total must not drift");
        let f = p.fraction();
        assert!(f.part <= f.whole, "fraction out of range");
        assert!(f.whole > 0, "percent must never be NaN");
        if let Some(eta) = p.eta {
            assert!(eta.as_nanos() <= Duration::from_secs(99 * 3600).as_nanos());
        }
    }
    // Progress only ever moves forward.
    for pair in samples.windows(2) {
        assert!(
            pair[1].done >= pair[0].done,
            "progress went backwards: {} then {}",
            pair[0].done,
            pair[1].done
        );
    }
}

#[test]
fn fill_resumes_from_an_existing_partial_fill() {
    let mut d = device();
    let w = window();
    d.fill(w, DIR).0.unwrap();
    let dir: u64 = d.dir(DIR).unwrap();
    let first_pass = list_fillers(&d.list(dir));
    let names_before = filler_names(&d, dir);

    // Simulate an interrupted run by removing the last object.
    let last = first_pass.last().expect("at least one filler");
    assert!(d.delete(last.id));
    assert!(!w.contains(d.free()));

    d.fill(w, DIR).0.unwrap();
    assert!(w.contains(d.free()));
    let after = filler_names(&d, dir);
    let mut unique = after.clone();
    unique.sort();
    unique.dedup();
    assert_eq!(unique.len(), after.len(), "filenames must not collide: {after:?}");
    // The surviving objects from the first pass were not rewritten.
    for name in names_before.iter().take(names_before.len() - 1) {
        assert!(after.contains(name), "{name} should have been kept");
    }
}

#[test]
fn a_precancelled_token_writes_nothing() {
    let mut d = device();
    let before: u64 = d.free();
    d.stop = true;
    let (outcome, _) = d.fill(window(), DIR);
    assert!(matches!(
        outcome.expect("cancelling is not an error"),
        Outcome::Cancelled { .. }
    ));
    assert_eq!(d.free(), before, "must not have written");
}

#[test]
fn cancelling_mid_fill_leaves_a_resumable_state() {
    let mut d = device();
    let w = window();
    let before: u64 = d.free();
    d.stop_after = Some(1);
    let (outcome, _) = d.fill(w, DIR);
    assert!(matches!(
        outcome.expect("cancelling is not an error"),
        Outcome::Cancelled { .. }
    ));
    let mid: u64 = d.free();
    assert!(mid < before, "should have made real progress before stopping");
    assert!(!w.contains(mid), "should have stopped short of the target");

    // The decisive property: a plain re-run finishes the job.
    d.stop = false;
    d.stop_after = None;
    let (outcome, _) = d.fill(w, DIR);
    assert!(matches!(outcome.expect("resume"), Outcome::InWindow { .. }));
    assert!(w.contains(d.free()));

    // And no filler was orphaned or duplicated along the way.
    let names = filler_names(&d, d.dir(DIR).unwrap());
    let mut unique = names.clone();
    unique.sort();
    unique.dedup();
    assert_eq!(unique.len(), names.len(), "duplicate filler: {names:?}");
}

#[test]
fn stopping_mid_write_leaves_no_partial_object_and_no_marker() {
    let mut d = device();
    d.stop_during = Some(2);
    let (outcome, events) = d.fill(window(), DIR);
    let free: u64 = d.free();
    assert_eq!(outcome.unwrap(), Outcome::Cancelled { free });
    let dir: u64 = d.dir(DIR).unwrap();
    assert_eq!(filler_names(&d, dir), vec!["fill_0000.bin"]);
    assert_eq!(d.list(dir).len(), 1);
    assert_eq!(written(&events), 1);
    assert_eq!(
        d.log,
        vec![
            "mark",
            "write fill_0000.bin",
            "write fill_0001.bin",
            "delete fill_0001.bin",
            "unmark"
        ]
    );
}

#[test]
fn a_broken_write_is_discarded_and_its_failure_is_what_comes_back() {
    let mut d = device();
    d.break_during = Some(1);
    let (outcome, _) = d.fill(window(), DIR);
    match outcome {
        Err(FillError::Mtp(e)) => assert_eq!(e.kind, ErrorKind::Timeout),
        other => panic!("expected the failure, got {other:?}"),
    }
    assert!(d.list(d.dir(DIR).unwrap()).is_empty());

    // Even where the partial object would not go.
    let mut d = device();
    d.break_during = Some(1);
    d.stubborn = vec!["fill_0000.bin".to_string()];
    assert!(matches!(d.fill(window(), DIR).0, Err(FillError::Mtp(_))));
    assert!(d.log.contains(&"unmark".to_string()));
}

#[test]
fn clean_leaves_foreign_files_and_their_folder_alone() {
    let mut d = device();
    d.fill(window(), DIR).0.unwrap();
    let dir: u64 = d.dir(DIR).unwrap();
    let foreign = [
        "mybook.azw3",
        "fill_notes.bin",
        "fill_12.bin",
        "fill_00000007.bin",
    ];
    for name in foreign {
        d.put(dir, name, 1024);
    }
    d.clean(DIR).0.unwrap();
    let dir: u64 = d
        .dir(DIR)
        .expect("folder must survive because it still holds files");
    let mut expected: Vec<String> = foreign.iter().map(|s| s.to_string()).collect();
    expected.sort();
    assert_eq!(
        d.names(dir),
        expected,
        "clean deleted something that wasn't ours"
    );
}

#[test]
fn refuses_to_fill_a_device_already_below_the_window() {
    let mut d = device();
    let bulk: u64 = CAPACITY - 4 * MIB;
    d.put(ROOT, "bulk.bin", bulk);
    match d.fill(window(), DIR).0 {
        Err(FillError::AlreadyBelowWindow {
            free,
            low,
            elsewhere,
        }) => {
            assert!(
                elsewhere.is_empty(),
                "none of this space is ours: {elsewhere:?}"
            );
            assert_eq!((free, low), (4 * MIB, 8 * MIB));
        }
        other => panic!("expected AlreadyBelowWindow, got {other:?}"),
    }
    assert!(
        d.dir(DIR).is_none(),
        "must not leave an empty fill_disk behind after refusing"
    );
    assert!(d.log.is_empty());
}

#[test]
fn refusing_below_the_window_says_where_the_filler_actually_is() {
    let mut d = device();
    d.fill(window(), "somewhere_else").0.unwrap();
    let higher = Window::new(20 * MIB, 30 * MIB).unwrap();
    match d.fill(higher, DIR).0 {
        Err(e) => {
            let shown = e.message();
            let FillError::AlreadyBelowWindow { elsewhere, .. } = e else {
                panic!("expected AlreadyBelowWindow, got {e:?}");
            };
            assert_eq!(elsewhere.len(), 1, "{elsewhere:?}");
            assert_eq!(elsewhere[0].name, "somewhere_else");
            assert!(elsewhere[0].bytes > 0);
            assert!(
                shown.contains("somewhere_else"),
                "the message has to name the folder: {shown}"
            );
        }
        other => panic!("expected AlreadyBelowWindow, got {other:?}"),
    }
}

#[test]
fn deleting_staged_updates_removes_only_named_root_level_images() {
    let mut d = device();
    d.put(ROOT, "update_kindle_pw5_5.18.1.bin", 4096);
    d.put(ROOT, "update_kindle_other.bin", 4096);
    d.put(ROOT, "updates_notes.bin", 4096);
    d.put(ROOT, "mybook.azw3", 4096);
    let sub: u64 = d.make_dir(ROOT, "documents");
    d.put(sub, "update_kindle_nested.bin", 4096);

    let staged: Vec<String> = list_staged_updates(&d.list(ROOT))
        .into_iter()
        .map(|e| e.name)
        .collect();
    assert_eq!(
        staged,
        vec!["update_kindle_other.bin", "update_kindle_pw5_5.18.1.bin"],
        "only root-level update_*.bin should be reported"
    );

    let asked = vec![
        "update_kindle_pw5_5.18.1.bin".to_string(),
        "mybook.azw3".to_string(),
        "update_kindle_nested.bin".to_string(),
    ];
    let (removed, events) = d.delete_updates(asked);
    let removed = removed.expect("delete");
    assert_eq!(
        removed.iter().map(|o| o.name.as_str()).collect::<Vec<_>>(),
        vec!["update_kindle_pw5_5.18.1.bin"],
        "a name that isn't a root-level staged image must delete nothing"
    );
    assert!(events.iter().any(|e| matches!(
        e,
        Event::Deleted {
            kind: DeletedKind::Update,
            ..
        }
    )));
    assert_eq!(
        d.names(ROOT),
        vec![
            "documents",
            "mybook.azw3",
            "update_kindle_other.bin",
            "updates_notes.bin",
        ]
    );
    // The nested lookalike is still where it was.
    assert_eq!(
        d.list(sub).len(),
        1,
        "a folder's contents are out of reach entirely"
    );
}

#[test]
fn an_update_that_would_not_go_is_not_counted_as_removed() {
    let mut d = device();
    d.put(ROOT, "update_a.bin", 10);
    d.put(ROOT, "update_b.bin", 20);
    d.stubborn = vec!["update_a.bin".to_string()];
    let (removed, events) =
        d.delete_updates(vec!["update_b.bin".to_string(), "update_a.bin".to_string()]);
    let removed = removed.unwrap();
    assert_eq!(removed.len(), 1);
    assert_eq!(removed[0].name, "update_b.bin");
    assert!(events
        .iter()
        .any(|e| matches!(e, Event::DeleteRefused { name, .. } if name == "update_a.bin")));
}

#[test]
fn every_named_update_goes_once_and_in_order() {
    let mut d = device();
    d.put(ROOT, "update_c.bin", 30);
    d.put(ROOT, "update_a.bin", 10);
    d.put(ROOT, "UPDATE_B.BIN", 20);
    d.put(ROOT, "update_kept.bin", 40);
    let asked = vec![
        "update_c.bin".to_string(),
        "UPDATE_B.BIN".to_string(),
        "update_a.bin".to_string(),
        "update_c.bin".to_string(),
    ];
    let (removed, events) = d.delete_updates(asked);
    let order = vec!["UPDATE_B.BIN", "update_a.bin", "update_c.bin"];
    let removed = removed.unwrap();
    assert_eq!(removed.iter().map(|e| e.name.as_str()).collect::<Vec<_>>(), order);
    assert_eq!(
        d.log,
        vec!["delete UPDATE_B.BIN", "delete update_a.bin", "delete update_c.bin"]
    );
    let told: Vec<&str> = events
        .iter()
        .filter_map(|e| match e {
            Event::Deleted { name, kind: DeletedKind::Update, .. } => Some(name.as_str()),
            _ => None,
        })
        .collect();
    assert_eq!(told, order);
    assert_eq!(events.len(), 4);
    assert!(matches!(events[3], Event::Finished { free } if free == CAPACITY - 40));
    assert_eq!(d.names(ROOT), vec!["update_kept.bin"]);
}

#[test]
fn a_staged_update_is_anything_but_a_folder() {
    let entry = |id: u64, name: &str, is_dir: bool, is_file: bool| Entry {
        id,
        name: name.to_string(),
        bytes: 7,
        is_dir,
        is_file,
    };
    // A link is neither a folder nor a regular file.
    let root = vec![
        entry(1, "update_folder.bin", true, false),
        entry(2, "update_link.bin", false, false),
        entry(3, "update_file.bin", false, true),
    ];
    let staged: Vec<u64> = list_staged_updates(&root).iter().map(|e| e.id).collect();
    assert_eq!(staged, vec![3, 2]);
    let asked = vec!["update_link.bin".to_string(), "update_folder.bin".to_string()];
    let (updates, _) = Updates::new(asked).answer(Answer::Listing(root));
    assert!(matches!(updates.ask(), Ask::Delete(e) if e.id == 2));
    let (updates, _) = updates.answer(Answer::Deleted { gone: true });
    assert!(matches!(updates.ask(), Ask::Measure));
    // The same link under a filler name is not filler.
    let listing = vec![entry(4, "fill_0000.bin", false, false)];
    assert!(list_fillers(&listing).is_empty());
    assert_eq!(list_foreign(&listing).len(), 1);
}

#[test]
fn filler_and_foreign_partition_the_folder_exactly() {
    let mut d = device();
    d.fill(window(), DIR).0.unwrap();
    let dir: u64 = d.dir(DIR).unwrap();
    for name in [
        "mybook.azw3",
        "fill_notes.bin",
        "fill_12.bin",
        "fill_00000007.bin",
    ] {
        d.put(dir, name, 1024);
    }
    d.make_dir(dir, "a_folder");
    let all: usize = d.list(dir).len();
    let fillers = list_fillers(&d.list(dir));
    let foreign = list_foreign(&d.list(dir));
    assert_eq!(
        fillers.len() + foreign.len(),
        all,
        "must partition, not overlap or drop"
    );
    assert_eq!(foreign.len(), 5, "4 files plus the folder");
    for f in &fillers {
        assert!(f.is_file, "a folder must never be counted as filler");
        assert!(
            !foreign.iter().any(|o| o.id == f.id),
            "sets must be disjoint"
        );
    }
}

#[test]
fn overwriting_empties_the_folder_and_nothing_outside_it() {
    let mut d = device();
    d.put(ROOT, "root_book.azw3", 1024);
    d.fill(window(), DIR).0.unwrap();
    let dir: u64 = d.dir(DIR).unwrap();
    d.put(dir, "mybook.azw3", 1024);
    let nested: u64 = d.make_dir(dir, "notes");
    d.put(nested, "deep.txt", 512);

    let before: u64 = d.free();
    let (removed, events) = d.purge(DIR);
    let removed: usize = removed.expect("purge");
    assert!(
        removed >= 4,
        "should have removed filler, book, folder and its child"
    );
    let dir: u64 = d
        .dir(DIR)
        .expect("the folder itself stays — fill is about to use it");
    assert!(d.list(dir).is_empty(), "folder must be empty afterwards");
    assert!(d.free() > before, "space must come back");
    assert!(
        d.names(ROOT).contains(&"root_book.azw3".to_string()),
        "content outside the folder must be untouched"
    );
    assert!(matches!(events.last(), Some(Event::Finished { .. })));
    let deep: usize = d.log.iter().position(|l| l == "delete deep.txt").unwrap();
    let notes: usize = d.log.iter().position(|l| l == "delete notes").unwrap();
    assert!(deep < notes, "children go first");
}

#[test]
fn overwriting_a_folder_that_does_not_exist_is_a_no_op() {
    let mut d = device();
    d.put(ROOT, "root_book.azw3", 1024);
    assert_eq!(d.purge(DIR).0.expect("purge"), 0);
    assert_eq!(d.names(ROOT), vec!["root_book.azw3"]);
}

#[test]
fn a_purge_tells_filler_from_the_rest_and_counts_what_went() {
    let mut d = device();
    let dir: u64 = d.make_dir(ROOT, DIR);
    d.put(dir, "fill_0000.bin", 7);
    d.put(dir, "book", 8);
    d.put(dir, "stuck", 9);
    d.stubborn = vec!["stuck".to_string()];
    let (removed, events) = d.purge(DIR);
    assert_eq!(removed.unwrap(), 2);
    let kinds: Vec<(String, Option<DeletedKind>)> = events
        .into_iter()
        .filter_map(|e| match e {
            Event::Deleted { name, kind, .. } => Some((name, Some(kind))),
            Event::DeleteRefused { name, .. } => Some((name, None)),
            _ => None,
        })
        .collect();
    assert_eq!(
        kinds,
        vec![
            ("fill_0000.bin".to_string(), Some(DeletedKind::Filler)),
            ("book".to_string(), Some(DeletedKind::Foreign)),
            ("stuck".to_string(), None),
        ]
    );
}

#[test]
fn a_confirmed_purge_needs_the_contents_that_were_confirmed() {
    let mut d = device();
    let dir: u64 = d.make_dir(ROOT, DIR);
    d.put(dir, "book", 8);
    let token = engine::current_overwrite_token(DIR, &d.list(dir)).unwrap();

    // A file that appeared since.
    let extra: u64 = d.put(dir, "another", 1);
    let (result, _) = d.run_purge(Purge::confirmed(DIR, &token).unwrap());
    assert!(matches!(result, Err(FillError::StaleConfirmation)));
    assert_eq!(d.list(dir).len(), 2);

    // What was confirmed, again; filler beside it does not matter.
    d.delete(extra);
    d.put(dir, "fill_0003.bin", 5);
    let (result, _) = d.run_purge(Purge::confirmed(DIR, &token).unwrap());
    assert_eq!(result.unwrap(), 2);

    // Nothing there that a confirmation could be for.
    let (result, _) = d.run_purge(Purge::confirmed(DIR, &token).unwrap());
    assert!(matches!(result, Err(FillError::StaleConfirmation)));
    let mut empty = device();
    let (result, _) = empty.run_purge(Purge::confirmed(DIR, &token).unwrap());
    assert!(matches!(result, Err(FillError::StaleConfirmation)));
}

#[test]
fn filler_is_found_whatever_the_folder_is_called() {
    let mut d = device();
    d.fill(window(), "fill_disk2112").0.unwrap();
    let books: u64 = d.make_dir(ROOT, "documents");
    d.put(books, "mybook.azw3", 4096);
    d.put(books, "fill_notes.bin", 4096);
    let found = d.scan();
    assert_eq!(
        found.len(),
        1,
        "should find exactly the filler folder: {found:?}"
    );
    assert_eq!(found[0].name, "fill_disk2112");
    assert!(found[0].files > 0 && found[0].bytes > 0);
    // And the default name genuinely holds nothing.
    assert!(d.dir(DIR).is_none());
}

#[test]
fn the_fullest_folder_comes_first() {
    let mut d = device();
    for (name, bytes) in [("b", 5u64), ("a", 5u64), ("c", 9u64)] {
        let dir: u64 = d.make_dir(ROOT, name);
        d.put(dir, "fill_0000.bin", bytes);
    }
    let names: Vec<String> = d.scan().into_iter().map(|f| f.name).collect();
    assert_eq!(names, vec!["c", "a", "b"]);
}

#[test]
fn cleaning_the_wrong_folder_reports_that_it_removed_nothing() {
    let mut d = device();
    d.fill(window(), "somewhere_else").0.unwrap();
    let before: u64 = d.free();
    let report = d.clean(DIR).0.unwrap();
    assert_eq!(report.removed, 0, "nothing in {DIR} to remove");
    assert_eq!(report.bytes, 0);
    assert_eq!(d.free(), before, "must not have freed anything");

    // The filler is still where it was, and still findable.
    assert_eq!(d.scan()[0].name, "somewhere_else");

    // Aimed correctly, it reports what it did.
    let report = d.clean("somewhere_else").0.unwrap();
    assert!(report.removed > 0 && report.bytes > 0, "{report:?}");
    assert!(d.free() > before);
}

#[test]
fn fill_climbs_back_up_when_it_starts_below_the_window() {
    let mut d = device();
    d.fill(window(), DIR).0.unwrap();
    let low: u64 = d.free();
    assert!(window().contains(low));
    let higher = Window::new(low + 8 * MIB, low + 16 * MIB).unwrap();
    match d.fill(higher, DIR).0.unwrap() {
        Outcome::InWindow { free } => {
            assert!(
                higher.contains(free),
                "landed at {free}, outside {higher:?}"
            );
        }
        other => panic!("expected InWindow, got {other:?}"),
    }
    // And the device agrees, independently of what fill reported.
    assert!(higher.contains(d.free()));
}

#[test]
fn climbing_up_removes_only_filler_and_leaves_foreign_files_alone() {
    let mut d = device();
    d.fill(window(), DIR).0.unwrap();
    let dir: u64 = d.dir(DIR).unwrap();
    d.put(dir, "mybook.azw3", 1024);
    d.put(dir, "fill_notes.bin", 1024);
    d.put(ROOT, "root_book.azw3", 1024);
    let low: u64 = d.free();
    let higher = Window::new(low + 8 * MIB, low + 16 * MIB).unwrap();
    d.fill(higher, DIR).0.expect("climb");
    let survivors: Vec<String> = list_foreign(&d.list(dir)).into_iter().map(|e| e.name).collect();
    assert!(survivors.contains(&"mybook.azw3".to_string()), "{survivors:?}");
    assert!(
        survivors.contains(&"fill_notes.bin".to_string()),
        "{survivors:?}"
    );
    assert!(d.names(ROOT).contains(&"root_book.azw3".to_string()));
}

#[test]
fn below_the_window_with_nothing_of_ours_to_remove_is_still_an_error() {
    let mut d = device();
    let bulk: u64 = CAPACITY - 4 * MIB;
    d.put(ROOT, "bulk.bin", bulk);
    match d.fill(window(), DIR).0 {
        Err(FillError::AlreadyBelowWindow { .. }) => {}
        other => panic!("expected AlreadyBelowWindow, got {other:?}"),
    }
}

#[test]
fn climbing_up_with_too_little_filler_ends_overfilled() {
    let mut d = device();
    d.put(ROOT, "bulk.bin", CAPACITY - 4 * MIB);
    let dir: u64 = d.make_dir(ROOT, DIR);
    d.put(dir, "fill_0000.bin", MIB);
    let (outcome, events) = d.fill(window(), DIR);
    assert_eq!(
        outcome.unwrap(),
        Outcome::Overfilled {
            free: 4 * MIB,
            excess: 4 * MIB
        }
    );
    assert!(matches!(
        events.last(),
        Some(Event::Finished { free }) if *free == 4 * MIB
    ));
    assert!(d.list(dir).is_empty());
}

#[test]
fn climbing_gets_there_on_a_device_that_gives_back_more_than_was_written() {
    let mut d = device();
    d.overhead = 64 * 1024;
    let dir: u64 = d.make_dir(ROOT, DIR);
    for n in 0..8 {
        d.put(dir, &engine::filler_name(n), MIB);
    }
    d.put(ROOT, "bulk.bin", CAPACITY - 12 * MIB);
    let short: u64 = d.free();
    assert!(short < window().low());
    match d.fill(window(), DIR).0.unwrap() {
        // The marker still stood when this was read.
        Outcome::InWindow { free } => assert_eq!(free, d.free() - d.overhead),
        other => panic!("expected InWindow, got {other:?}"),
    }
    assert!(window().contains(d.free()));
    let back: u64 = d.free() - short;
    let gone: u64 = 8 - d.list(dir).len() as u64;
    assert!(gone > 0);
    assert_eq!(back, gone * (MIB + 64 * 1024));
}

#[test]
fn a_fill_that_succeeds_says_so_once_and_last() {
    let told = |outcome: Outcome, events: Vec<Event>| {
        let free: u64 = match outcome {
            Outcome::InWindow { free } => free,
            Outcome::Overfilled { free, .. } => free,
            Outcome::Cancelled { free } => free,
        };
        let ends: Vec<usize> = (0..events.len())
            .filter(|i| matches!(events[*i], Event::Finished { .. }))
            .collect();
        assert_eq!(ends, vec![events.len() - 1]);
        assert!(matches!(events.last(), Some(Event::Finished { free: f }) if *f == free));
    };
    let mut d = device();
    let (outcome, events) = d.fill(window(), DIR);
    told(outcome.unwrap(), events);
    // Nothing left to do.
    let (outcome, events) = d.fill(window(), DIR);
    told(outcome.unwrap(), events);
    // Climbing back up.
    let low: u64 = d.free();
    let (outcome, events) = d.fill(Window::new(low + 8 * MIB, low + 16 * MIB).unwrap(), DIR);
    told(outcome.unwrap(), events);
    // Stopped during a write.
    let mut d = device();
    d.stop_during = Some(2);
    let (outcome, events) = d.fill(window(), DIR);
    told(outcome.unwrap(), events);
    // Out of filler below the window.
    let mut d = device();
    d.put(ROOT, "bulk.bin", CAPACITY - 4 * MIB);
    let dir: u64 = d.make_dir(ROOT, DIR);
    d.put(dir, "fill_0000.bin", MIB);
    let (outcome, events) = d.fill(window(), DIR);
    told(outcome.unwrap(), events);
}

#[test]
fn a_fill_settles_within_a_write_per_mebibyte() {
    for overhead in [0, 4096, 65536] {
        let mut d = device();
        d.overhead = overhead;
        let above: u64 = d.free() - window().high();
        let (outcome, events) = d.fill(window(), DIR);
        assert!(matches!(outcome, Ok(Outcome::InWindow { .. })));
        assert!(written(&events) as u64 <= above / MIB + 1);
        assert!(events.iter().all(|e| !matches!(e, Event::Wrote { bytes, .. } if *bytes < MIB)));
    }
}

#[test]
fn filler_that_will_not_go_ends_the_climb() {
    let mut d = device();
    d.put(ROOT, "bulk.bin", CAPACITY - 4 * MIB);
    let dir: u64 = d.make_dir(ROOT, DIR);
    d.put(dir, "fill_0000.bin", 2 * MIB);
    d.stubborn = vec!["fill_0000.bin".to_string()];
    let (outcome, events) = d.fill(window(), DIR);
    assert_eq!(
        outcome.unwrap(),
        Outcome::Overfilled {
            free: 2 * MIB,
            excess: 6 * MIB
        }
    );
    assert!(events
        .iter()
        .any(|e| matches!(e, Event::DeleteRefused { .. })));
    assert_eq!(filler_names(&d, dir), vec!["fill_0000.bin"]);
    assert_eq!(d.list(dir).len(), 1);
}

#[test]
fn what_an_interrupted_fill_left_behind_is_reclaimed_first() {
    let mut d = device();
    let dir: u64 = d.make_dir(ROOT, DIR);
    d.put(dir, INFLIGHT_MARKER, 1);
    d.put(dir, "fill_0004.bin", MIB);
    d.put(dir, "8.tmp", 3 * MIB);
    let kept: u64 = d.make_dir(dir, "folder");
    let (outcome, events) = d.fill(window(), DIR);
    assert!(matches!(outcome.unwrap(), Outcome::InWindow { .. }));
    assert!(events.iter().any(|e| matches!(
        e,
        Event::Deleted { name, bytes, kind: DeletedKind::Interrupted }
            if name == "8.tmp" && *bytes == 3 * MIB
    )));
    assert_eq!(d.log[0], "delete 8.tmp");
    let left = d.list(dir);
    assert!(left.iter().any(|e| e.id == kept));
    assert!(left.iter().all(|e| e.name != INFLIGHT_MARKER));
    // Numbering goes on behind what is there.
    assert!(filler_names(&d, dir).contains(&"fill_0005.bin".to_string()));
}

#[test]
fn debris_that_will_not_go_keeps_its_marker() {
    let mut d = device();
    let dir: u64 = d.make_dir(ROOT, DIR);
    d.put(dir, INFLIGHT_MARKER, 1);
    d.put(dir, "8.tmp", 3 * MIB);
    d.stubborn = vec!["8.tmp".to_string()];
    assert!(matches!(
        d.fill(window(), DIR).0.unwrap(),
        Outcome::InWindow { .. }
    ));
    assert!(d.names(dir).contains(&INFLIGHT_MARKER.to_string()));

    // A clean leaves both as well, and takes both once the debris goes.
    let report = d.clean(DIR).0.unwrap();
    assert!(report.removed > 0);
    assert_eq!(d.names(dir), vec!["8.tmp", INFLIGHT_MARKER]);
    d.stubborn.clear();
    let (report, events) = d.clean(DIR);
    let report = report.unwrap();
    assert_eq!((report.removed, report.bytes), (1, 3 * MIB));
    assert!(matches!(
        &events[0],
        Event::Deleted {
            kind: DeletedKind::Interrupted,
            ..
        }
    ));
    assert!(d.dir(DIR).is_none());
}

#[test]
fn without_a_marker_nothing_counts_as_debris() {
    let mut d = device();
    let dir: u64 = d.make_dir(ROOT, DIR);
    d.put(dir, "8.tmp", MIB);
    d.fill(window(), DIR).0.unwrap();
    d.clean(DIR).0.unwrap();
    assert_eq!(d.names(dir), vec!["8.tmp"]);
}

#[test]
fn a_read_only_storage_is_refused_before_anything_else() {
    let mut d = device();
    d.writable = false;
    match d.fill(window(), DIR).0 {
        Err(e) => assert_eq!(e.message(), "storage \"Internal Storage\" is read-only"),
        other => panic!("expected ReadOnly, got {other:?}"),
    }
    assert_eq!(d.readings, 0);
}

#[test]
fn a_device_that_stops_reporting_its_space_is_not_believed_to_be_full() {
    for at in 1..5 {
        let mut d = device();
        d.lose_space_at = Some(at);
        let (outcome, _) = d.fill(window(), DIR);
        assert!(
            matches!(outcome, Err(FillError::SpaceUnreported)),
            "{at}: {outcome:?}"
        );
        if let Some(dir) = d.dir(DIR) {
            assert!(!d.names(dir).contains(&INFLIGHT_MARKER.to_string()));
        }
    }
}

#[test]
fn a_mounted_volume_is_believed_whatever_its_capacity() {
    let unknown = |free: u64| Reply::Measured {
        space: Space { total: 0, free },
        cancelled: false,
    };
    let (fill, _) = Fill::on_volume(window(), DIR).unwrap().reply(Reply::Writable);
    let (fill, events) = fill.reply(unknown(40 * MIB));
    assert!(matches!(events[0].clone(), Event::Started { free, .. } if free == 40 * MIB));
    let (fill, _) = fill.reply(Reply::Done);
    let (fill, _) = fill.reply(Reply::Listing(vec![]));
    let (fill, _) = fill.reply(Reply::Done);
    let (fill, _) = fill.reply(unknown(12 * MIB));
    let (fill, _) = fill.reply(Reply::Done);
    assert_eq!(
        fill.result().unwrap().unwrap(),
        Outcome::InWindow { free: 12 * MIB }
    );
    // Over MTP the same reading is none.
    let (fill, _) = Fill::new(window(), DIR).unwrap().reply(Reply::Writable);
    let (fill, _) = fill.reply(unknown(40 * MIB));
    assert!(matches!(
        fill.result().unwrap(),
        Err(FillError::SpaceUnreported)
    ));
    assert!(matches!(
        Fill::on_volume(window(), ".."),
        Err(FillError::BadName(NameError::Illegal { .. }))
    ));
}

#[test]
fn a_clean_gives_back_what_any_successful_fill_took() {
    for stop in [None, Some(1), Some(2)] {
        for overhead in [0, 4096] {
            for free in [60 * MIB, 12 * MIB, 8 * MIB] {
                let mut d = device();
                d.overhead = overhead;
                d.stop_during = stop;
                d.put(ROOT, "book.azw3", CAPACITY - free);
                let before: u64 = d.free();
                if before < window().low() {
                    continue;
                }
                let root: Vec<String> = d.names(ROOT);
                d.fill(window(), DIR).0.unwrap();
                assert!(d.dir(DIR).is_some());
                let (report, _) = d.clean(DIR);
                assert_eq!(report.unwrap().free, before);
                assert_eq!(d.free(), before);
                assert_eq!(d.names(ROOT), root);
            }
        }
    }
}

#[test]
fn a_resumed_fill_keeps_what_is_there_and_counts_on() {
    for marked in [false, true] {
        let mut d = device();
        d.overhead = 4096;
        let dir: u64 = d.make_dir(ROOT, DIR);
        for n in [0, 3, 7] {
            d.put(dir, &engine::filler_name(n), MIB);
        }
        d.put(dir, "book.azw3", 512);
        if marked {
            // Then the book counts as debris.
            d.put(dir, INFLIGHT_MARKER, 1);
        }
        let kept = list_fillers(&d.list(dir));
        match d.fill(window(), DIR).0.unwrap() {
            Outcome::InWindow { free } => assert!(window().contains(free)),
            other => panic!("expected InWindow, got {other:?}"),
        }
        let now = list_fillers(&d.list(dir));
        assert!(now.len() > kept.len());
        for e in &kept {
            assert!(now.iter().any(|x| x.id == e.id && x.name == e.name && x.bytes == e.bytes));
        }
        let mut fresh: Vec<u32> = now
            .iter()
            .filter(|e| kept.iter().all(|k| k.id != e.id))
            .map(|e| engine::filler_sequence(&e.name).unwrap())
            .collect();
        fresh.sort();
        let count: u32 = fresh.len() as u32;
        assert_eq!(fresh, (8..8 + count).collect::<Vec<u32>>());
        assert_eq!(list_foreign(&d.list(dir)).len(), if marked { 0 } else { 1 });
    }
}

#[test]
fn names_running_out_is_an_error_and_not_a_collision() {
    let mut d = device();
    let dir: u64 = d.make_dir(ROOT, DIR);
    d.put(dir, "fill_4294967295.bin", 1);
    let (outcome, _) = d.fill(window(), DIR);
    assert!(matches!(outcome, Err(FillError::NamesExhausted)));
    assert_eq!(d.list(dir).len(), 1);
}

#[test]
fn operations_refuse_names_that_leave_the_root() {
    let mut d = device();
    for bad in ["", "..", "a/b"] {
        assert!(matches!(
            d.fill(window(), bad).0,
            Err(FillError::BadName(_))
        ));
        assert!(matches!(d.clean(bad).0, Err(FillError::BadName(_))));
        assert!(matches!(Purge::new(bad), Err(FillError::BadName(_))));
        assert!(matches!(
            Purge::confirmed(bad, "0"),
            Err(FillError::BadName(_))
        ));
    }
    assert!(matches!(
        Clean::new(""),
        Err(FillError::BadName(NameError::Empty))
    ));
    assert_eq!(d.readings, 0);
}

#[test]
fn an_answer_to_something_else_changes_nothing() {
    let fill = Fill::new(window(), DIR).unwrap();
    let (fill, events) = fill.reply(Reply::Wrote);
    assert!(events.is_empty());
    assert!(matches!(fill.request(), Request::CheckWritable));
    assert!(fill.result().is_none());
    let clean = Clean::new(DIR).unwrap();
    let (clean, _) = clean.answer(Answer::Deleted { gone: true });
    assert!(matches!(clean.ask(), Ask::ListRoot));
    assert!(clean.result().is_none());
}

#[test]
fn a_failure_is_what_an_operation_ends_with() {
    let (fill, _) = Fill::new(window(), DIR).unwrap().reply(Reply::Failed(broken()));
    assert!(matches!(fill.request(), Request::Finish));
    assert!(matches!(fill.result(), Some(Err(FillError::Mtp(_)))));
    let (clean, _) = Clean::new(DIR)
        .unwrap()
        .answer(Answer::Failed(FillError::Io("gone".to_string())));
    match clean.result() {
        Some(Err(e)) => assert_eq!(e.message(), "gone"),
        other => panic!("expected the failure, got {other:?}"),
    }
    let (purge, _) = Purge::new(DIR).unwrap().answer(Answer::Failed(broken()));
    assert!(matches!(purge.result(), Some(Err(FillError::Mtp(_)))));
    let (updates, _) = Updates::new(vec![]).answer(Answer::Failed(broken()));
    assert!(matches!(updates.result(), Some(Err(FillError::Mtp(_)))));
}

#[test]
fn a_fill_cancelled_before_the_first_step_writes_nothing() {
    let mut d = device();
    d.capacity = 1024 * MIB;
    d.stop = true;
    let window = Window::new(50 * 1024 * 1024, 90 * 1024 * 1024).unwrap();
    let (outcome, events) = d.fill(window, "fill_disk");
    assert!(matches!(outcome.unwrap(), Outcome::Cancelled { .. }));
    assert_eq!(written(&events), 0);
    assert!(
        d.dir("fill_disk").is_none_or(|dir| d.list(dir).is_empty()),
        "a cancelled fill left files behind"
    );
}
