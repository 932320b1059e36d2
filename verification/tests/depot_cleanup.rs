//! Passes over a disk in memory, from the first question to the last.
use std::collections::BTreeMap;
use wn_steam_client::content_manifest::{ContentManifest, ManifestFile};
use wn_steam_client::depot_cleanup::builds::build_file_name;
use wn_steam_client::depot_cleanup::records::usable_manifest;
use wn_steam_client::depot_cleanup::{
    backfill_filelist_sidecar, filelist_sidecar_path, normalized_key, pending_cleanup_markers,
    read_filelist_sidecar, record_aborted_build, record_pending_cleanup, run_stale_file_cleanup,
    sanitized_components, stale_cleanup_marker_name, stale_cleanup_marker_path,
    write_filelist_sidecar, Ending, FileEntry, FileWrite, NodeKind, Reply, Request,
};
use wn_steam_client::depot_config::INVALID_MANIFEST_ID;
use wn_steam_client::depot_downloader::{key_of_depot, ResolvedDepotSpec};
use wn_steam_client::depot_writer::{DEPOT_FILE_FLAG_DIRECTORY, DEPOT_FILE_FLAG_EXECUTABLE};

const CONFIG: &str = "cfg";

#[derive(Clone, Copy, Debug, PartialEq, Eq)]
enum Node {
    File,
    Directory,
    Link,
}

/// What is on disk: the config directory, what is under the install directory,
/// and what is under the directory that links lead to.
#[derive(Clone, Debug, Default, PartialEq, Eq)]
struct Disk {
    installed: Vec<(u32, u64)>,
    config: BTreeMap<String, Vec<u8>>,
    nodes: BTreeMap<Vec<String>, Node>,
    outside: BTreeMap<Vec<String>, Node>,
    stuck: Vec<Vec<String>>,
    asked: Vec<String>,
    /// The install directory itself is gone.
    uninstalled: bool,
    ending: Option<Ending>,
    unknown: Vec<(u32, u64)>,
}

fn parts(rel: &str) -> Vec<String> {
    rel.split('/').map(|part| part.to_string()).collect()
}

fn manifest(files: &[(&str, u32)]) -> ContentManifest {
    ContentManifest {
        files: files
            .iter()
            .map(|(name, flags)| ManifestFile {
                filename: name.to_string(),
                flags: *flags,
            })
            .collect(),
    }
}

/// A manifest as bytes, sealed with the key that is needed to read it.
fn raw_manifest(files: &[(&str, u32)]) -> Vec<u8> {
    let mut raw = vec![1u8; 32];
    for (name, flags) in files {
        raw.extend_from_slice(format!("{flags} {name}\n").as_bytes());
    }
    raw
}

fn decode_manifest(raw: &[u8], key: &[u8]) -> Option<ContentManifest> {
    let body = raw.strip_prefix(key)?;
    let text = String::from_utf8(body.to_vec()).ok()?;
    let mut files = Vec::new();
    for line in text.lines() {
        let (flags, name) = line.split_once(' ')?;
        files.push(ManifestFile {
            filename: name.to_string(),
            flags: flags.parse().ok()?,
        });
    }
    Some(ContentManifest { files })
}

fn spec(depot_id: u32, manifest_id: u64) -> ResolvedDepotSpec {
    ResolvedDepotSpec {
        depot_id,
        manifest_id,
        depot_key: vec![1u8; 32],
        manifest_request_code: 0,
    }
}

impl Disk {
    fn write(&mut self, write: FileWrite) {
        let name = write.path.strip_prefix("cfg/").unwrap().to_string();
        self.config.insert(name, write.contents.into_bytes());
    }

    /// Whether a marker was recorded.
    fn mark(&mut self, write: Option<FileWrite>) -> bool {
        match write {
            Some(write) => {
                self.write(write);
                true
            }
            None => false,
        }
    }

    fn write_manifest(&mut self, depot_id: u32, manifest_id: u64, files: &[(&str, u32)]) {
        let name = build_file_name(depot_id, manifest_id, ".manifest");
        self.config.insert(name, raw_manifest(files));
    }

    fn write_sidecar(&mut self, depot_id: u32, manifest_id: u64, files: &[(&str, u32)]) {
        let write = write_filelist_sidecar(CONFIG, depot_id, manifest_id, &manifest(files));
        self.write(write);
    }

    fn install_current(&mut self, depot_id: u32, manifest_id: u64) {
        self.installed.retain(|build| build.0 != depot_id);
        self.installed.push((depot_id, manifest_id));
    }

    fn touch(&mut self, rel: &str) {
        let path = parts(rel);
        for depth in 1..path.len() {
            self.nodes.insert(path[..depth].to_vec(), Node::Directory);
        }
        self.nodes.insert(path, Node::File);
    }

    fn holds(&self, rel: &str) -> bool {
        self.nodes.contains_key(&parts(rel))
    }

    fn is_dir(&self, rel: &str) -> bool {
        self.nodes.get(&parts(rel)) == Some(&Node::Directory)
    }

    fn names(&self) -> Vec<String> {
        self.config.keys().cloned().collect()
    }

    fn pending(&self) -> Vec<(u32, u64)> {
        pending_cleanup_markers(&self.names())
    }

    /// The node at a path, links on the way to it followed.
    fn lookup(&mut self, path: &[String]) -> (bool, Vec<String>) {
        for depth in 1..path.len() {
            if self.nodes.get(&path[..depth].to_vec()) == Some(&Node::Link) {
                return (true, path[depth..].to_vec());
            }
        }
        (false, path.to_vec())
    }

    fn stat(&mut self, path: &[String]) -> NodeKind {
        let (out, path) = self.lookup(path);
        let nodes = if out { &self.outside } else { &self.nodes };
        match nodes.get(&path) {
            None => NodeKind::Missing,
            Some(Node::Directory) => NodeKind::Directory,
            Some(_) => NodeKind::Other,
        }
    }

    fn remove_file(&mut self, path: &[String]) -> bool {
        if self.stuck.contains(&path.to_vec()) {
            return false;
        }
        let (out, path) = self.lookup(path);
        let nodes = if out { &mut self.outside } else { &mut self.nodes };
        nodes.remove(&path).is_some()
    }

    fn remove_dir(&mut self, path: &[String]) -> bool {
        let path = path.to_vec();
        let full = self
            .nodes
            .keys()
            .any(|other| other.len() > path.len() && other[..path.len()] == path[..]);
        if path.is_empty() && !full {
            self.uninstalled = true;
            return true;
        }
        if full || self.nodes.get(&path) != Some(&Node::Directory) {
            return false;
        }
        self.nodes.remove(&path);
        true
    }

    fn answer(&mut self, request: Request) -> Option<Reply> {
        self.asked.push(format!("{request:?}"));
        let reply = match request {
            Request::Installed => Reply::Installed(self.installed.clone()),
            Request::Names => Reply::Names(self.names()),
            Request::Sidecar(depot_id, manifest_id) => {
                let name = build_file_name(depot_id, manifest_id, ".filelist");
                let bytes = self.config.get(&name).cloned();
                Reply::Text(bytes.and_then(|bytes| String::from_utf8(bytes).ok()))
            }
            Request::Manifest(depot_id, manifest_id) => {
                let name = build_file_name(depot_id, manifest_id, ".manifest");
                Reply::Bytes(self.config.get(&name).cloned())
            }
            Request::Decode(raw, key) => Reply::Manifest(decode_manifest(raw, key)),
            Request::SidecarExists(depot_id, manifest_id) => {
                let name = build_file_name(depot_id, manifest_id, ".filelist");
                Reply::Flag(self.config.contains_key(&name))
            }
            Request::ManifestExists(depot_id, manifest_id) => {
                let name = build_file_name(depot_id, manifest_id, ".manifest");
                Reply::Flag(self.config.contains_key(&name))
            }
            Request::IsLink(path) => {
                Reply::Flag(self.nodes.get(&path.to_vec()) == Some(&Node::Link))
            }
            Request::Stat(path) => Reply::Kind(self.stat(path)),
            Request::RemoveFile(path) => Reply::Flag(self.remove_file(path)),
            Request::RemoveDir(path) => Reply::Flag(self.remove_dir(path)),
            Request::DropMarker(depot_id, manifest_id) => {
                self.config.remove(&stale_cleanup_marker_name(depot_id, manifest_id));
                Reply::Dropped
            }
            Request::Done(_) => return None,
        };
        Some(reply)
    }

    fn cleanup(&mut self, depots: &[ResolvedDepotSpec]) -> u32 {
        let mut pass = run_stale_file_cleanup(depots);
        assert_eq!(pass.ending(), None);
        while let Some(reply) = self.answer(pass.request()) {
            pass.resume(reply);
        }
        self.ending = pass.ending();
        self.unknown = pass.unknown_builds();
        match pass.request() {
            Request::Done(deleted) => {
                assert_eq!(deleted, pass.deleted());
                deleted
            }
            other => panic!("{other:?}"),
        }
    }
}

#[test]
fn marker_recording_skips_noop_transitions() {
    let mut disk = Disk::default();
    assert!(!disk.mark(record_pending_cleanup(CONFIG, 100, 0, 555)));
    assert!(!disk.mark(record_pending_cleanup(CONFIG, 100, INVALID_MANIFEST_ID, 555)));
    assert!(!disk.mark(record_pending_cleanup(CONFIG, 100, 555, 555)));
    assert!(disk.pending().is_empty());

    assert!(disk.mark(record_pending_cleanup(CONFIG, 100, 444, 555)));
    assert_eq!(disk.pending(), vec![(100, 444)]);
}

#[test]
fn filelist_sidecar_roundtrips_files_and_dirs() {
    let mut disk = Disk::default();
    disk.write_sidecar(
        100,
        555,
        &[("bin", DEPOT_FILE_FLAG_DIRECTORY), ("bin/game.exe", 0)],
    );
    let text = String::from_utf8(disk.config["100_555.filelist"].clone()).unwrap();
    let entries = read_filelist_sidecar(&text).unwrap();
    assert_eq!(
        entries,
        vec![
            FileEntry {
                name: "bin".into(),
                is_dir: true
            },
            FileEntry {
                name: "bin/game.exe".into(),
                is_dir: false
            },
        ]
    );
}

#[test]
fn deletes_files_dropped_by_new_manifest_and_prunes_dirs() {
    let mut disk = Disk::default();
    disk.write_manifest(
        100,
        444,
        &[
            ("bin", DEPOT_FILE_FLAG_DIRECTORY),
            ("bin/old", DEPOT_FILE_FLAG_DIRECTORY),
            ("bin/old/legacy.dll", 0),
            ("bin/game.exe", DEPOT_FILE_FLAG_EXECUTABLE),
            ("data.pak", 0),
        ],
    );
    disk.write_manifest(
        100,
        555,
        &[
            ("bin", DEPOT_FILE_FLAG_DIRECTORY),
            ("bin/game.exe", DEPOT_FILE_FLAG_EXECUTABLE),
            ("data.pak", 0),
        ],
    );
    disk.install_current(100, 555);
    disk.touch("bin/old/legacy.dll");
    disk.touch("bin/game.exe");
    disk.touch("data.pak");
    disk.touch("steam_settings/configs.app.ini");
    assert!(disk.mark(record_pending_cleanup(CONFIG, 100, 444, 555)));

    let deleted = disk.cleanup(&[spec(100, 555)]);

    assert_eq!(deleted, 1);
    assert!(!disk.holds("bin/old/legacy.dll"));
    assert!(!disk.holds("bin/old"));
    assert!(disk.holds("bin/game.exe"));
    assert!(disk.holds("data.pak"));
    assert!(disk.holds("steam_settings/configs.app.ini"));
    assert!(!disk.uninstalled);
    assert!(disk.pending().is_empty());
}

#[test]
fn install_directory_is_never_removed() {
    // All that is there goes, but the install directory is not asked for.
    let mut disk = Disk::default();
    disk.write_sidecar(100, 555, &[("core.dat", 0)]);
    disk.write_sidecar(
        100,
        444,
        &[("top.dat", 0), ("a", DEPOT_FILE_FLAG_DIRECTORY), ("a/b/old.dat", 0)],
    );
    disk.install_current(100, 555);
    disk.touch("top.dat");
    disk.touch("a/b/old.dat");
    assert_eq!(disk.cleanup(&[]), 2);
    assert!(disk.nodes.is_empty());
    assert!(!disk.uninstalled);
    assert!(disk.asked.contains(&"RemoveDir([\"a\"])".to_string()));
    assert!(!disk.asked.contains(&"RemoveDir([])".to_string()));
}

#[test]
fn endings_say_why_a_pass_is_done() {
    let mut disk = Disk::default();
    disk.cleanup(&[]);
    assert_eq!(disk.ending, Some(Ending::NothingOnDisk));

    disk.write_sidecar(100, 444, &[("old.dat", 0)]);
    disk.cleanup(&[]);
    assert_eq!(disk.ending, Some(Ending::NothingInstalled));

    disk.install_current(100, 555);
    disk.cleanup(&[]);
    assert_eq!(disk.ending, Some(Ending::Unreadable(100, 555)));

    disk.write_sidecar(100, 555, &[("core.dat", 0)]);
    disk.install_current(200, INVALID_MANIFEST_ID);
    disk.cleanup(&[]);
    assert_eq!(disk.ending, Some(Ending::InProgress(200)));

    disk.installed = vec![(100, 555)];
    disk.write_sidecar(300, 1, &[("other.dat", 0)]);
    assert!(disk.mark(record_aborted_build(CONFIG, 300, 2)));
    disk.cleanup(&[]);
    assert_eq!(disk.ending, Some(Ending::Finished));
    assert_eq!(disk.unknown, vec![(300, 1), (300, 2)]);
    assert_eq!(disk.pending(), vec![(300, 2)]);
}

#[test]
fn pass_tells_the_build_in_hand_and_what_it_keeps() {
    let mut pass = run_stale_file_cleanup(&[]);
    pass.resume(Reply::Installed(vec![(100, 555)]));
    pass.resume(Reply::Names(vec!["100_444.filelist".to_string()]));
    pass.resume(Reply::Names(Vec::new()));
    assert_eq!(pass.request(), Request::Sidecar(100, 555));
    assert_eq!(pass.build_in_hand(), None);
    assert!(!pass.keeps("Core.dat"));
    pass.resume(Reply::Text(Some("WNFL1 1\nF core.dat\n".to_string())));
    assert_eq!(pass.request(), Request::Sidecar(100, 444));
    assert_eq!(pass.build_in_hand(), Some((100, 444)));
    assert!(pass.keeps("./Core.dat"));
    assert!(!pass.keeps("old.dat"));
}

#[test]
fn marker_under_another_spelling_is_read_and_not_dropped() {
    let mut disk = Disk::default();
    disk.write_sidecar(100, 555, &[("core.dat", 0)]);
    disk.install_current(100, 555);
    disk.config.insert("0100_555.stalecleanup".to_string(), Vec::new());
    assert!(disk.mark(record_aborted_build(CONFIG, 100, 555)));
    assert_eq!(disk.cleanup(&[]), 0);
    assert_eq!(disk.pending(), vec![(100, 555)]);
    assert!(!disk.config.contains_key("100_555.stalecleanup"));
    assert!(disk.config.contains_key("0100_555.stalecleanup"));
}

#[test]
fn narrowed_update_cleans_via_sidecars_without_other_depots_keys() {
    // A narrowed update carries only the changed depot; the other installed
    // depot is represented by its file list alone.
    let mut disk = Disk::default();
    disk.write_sidecar(100, 444, &[("shared.dat", 0), ("only_old.dat", 0)]);
    disk.write_sidecar(100, 555, &[("core.dat", 0)]);
    disk.write_sidecar(200, 777, &[("Shared.dat", 0)]);
    disk.install_current(100, 555);
    disk.install_current(200, 777);
    disk.touch("shared.dat");
    disk.touch("only_old.dat");
    disk.touch("core.dat");
    assert!(disk.mark(record_pending_cleanup(CONFIG, 100, 444, 555)));

    let deleted = disk.cleanup(&[spec(100, 555)]);

    assert_eq!(deleted, 1);
    assert!(disk.holds("shared.dat"), "depot 200 still ships it");
    assert!(!disk.holds("only_old.dat"));
    assert!(disk.holds("core.dat"));
    assert!(disk.pending().is_empty());
}

#[test]
fn unreadable_old_list_with_data_on_disk_defers_marker() {
    let mut disk = Disk::default();
    disk.write_manifest(100, 444, &[("only_old.dat", 0)]);
    disk.write_sidecar(100, 555, &[("core.dat", 0)]);
    disk.install_current(100, 555);
    disk.touch("only_old.dat");
    assert!(disk.mark(record_pending_cleanup(CONFIG, 100, 444, 555)));

    // The old manifest exists, but there is no key for depot 100 and no old
    // file list: the marker is kept for an operation that has the key.
    let deleted = disk.cleanup(&[spec(200, 777)]);
    assert_eq!(deleted, 0);
    assert!(disk.holds("only_old.dat"));
    assert_eq!(disk.pending(), vec![(100, 444)]);

    // Once the data is gone the marker can never act, and is dropped.
    assert!(disk.config.remove("100_444.manifest").is_some());
    let deleted = disk.cleanup(&[spec(200, 777)]);
    assert_eq!(deleted, 0);
    assert!(disk.pending().is_empty());
    assert!(disk.holds("only_old.dat"));
}

#[test]
fn unreadable_installed_depot_defers_whole_pass() {
    // An installed depot with no file list and no key leaves it unknown what
    // is in use, so the pass removes nothing.
    let mut disk = Disk::default();
    disk.write_sidecar(100, 444, &[("only_old.dat", 0)]);
    disk.write_sidecar(100, 555, &[("core.dat", 0)]);
    disk.install_current(100, 555);
    disk.install_current(200, 777);
    disk.touch("only_old.dat");
    disk.touch("core.dat");
    assert!(disk.mark(record_pending_cleanup(CONFIG, 100, 444, 555)));

    let deleted = disk.cleanup(&[spec(100, 555)]);

    assert_eq!(deleted, 0);
    assert!(disk.holds("only_old.dat"));
    assert!(disk.holds("core.dat"));
    assert_eq!(disk.pending(), vec![(100, 444)]);
}

#[test]
fn unreadable_depot_config_defers_instead_of_deleting_everything() {
    // A config that cannot be read lists nothing, which must not be taken for
    // nothing being in use.
    let mut disk = Disk::default();
    disk.write_sidecar(100, 555, &[("core.dat", 0)]);
    disk.write_sidecar(100, 444, &[("only_old.dat", 0)]);
    disk.touch("core.dat");
    disk.touch("only_old.dat");
    assert!(disk.mark(record_pending_cleanup(CONFIG, 100, 444, 555)));
    disk.config.insert("depot.config".to_string(), b"{ not json".to_vec());

    let deleted = disk.cleanup(&[spec(100, 555)]);

    assert_eq!(deleted, 0, "must defer, not sweep on an unreadable config");
    assert!(disk.holds("core.dat"), "fresh build must survive");
    assert!(disk.holds("only_old.dat"));
    assert_eq!(disk.pending(), vec![(100, 444)]);
}

#[test]
fn depot_absent_from_config_defers_its_builds() {
    // Files can be on disk of a depot that the config does not list: it is
    // unknown, not dead.
    let mut disk = Disk::default();
    disk.write_sidecar(100, 555, &[("core.dat", 0)]);
    disk.write_sidecar(200, 777, &[("dlc.dat", 0)]);
    disk.install_current(100, 555);
    disk.touch("core.dat");
    disk.touch("dlc.dat");

    let deleted = disk.cleanup(&[spec(100, 555)]);

    assert_eq!(deleted, 0, "forgotten depot's files are unknown, not stale");
    assert!(disk.holds("dlc.dat"), "must not wipe a forgotten depot");
    assert!(disk.holds("core.dat"));
}

#[test]
fn keeps_empty_directory_the_current_manifest_ships() {
    // A build that ships an empty Mods/ keeps it, even when the old build's
    // files were the only things in it.
    let mut disk = Disk::default();
    disk.write_sidecar(100, 444, &[("Mods/old_mod.dat", 0)]);
    disk.write_sidecar(
        100,
        555,
        &[("core.dat", 0), ("Mods", DEPOT_FILE_FLAG_DIRECTORY)],
    );
    disk.install_current(100, 555);
    disk.touch("core.dat");
    disk.touch("Mods/old_mod.dat");
    assert!(disk.mark(record_pending_cleanup(CONFIG, 100, 444, 555)));

    let deleted = disk.cleanup(&[spec(100, 555)]);

    assert_eq!(deleted, 1);
    assert!(!disk.holds("Mods/old_mod.dat"));
    assert!(disk.is_dir("Mods"), "shipped empty dir must survive");
}

#[test]
fn truncated_file_list_defers_instead_of_under_populating_keep() {
    let mut disk = Disk::default();
    disk.write_sidecar(100, 444, &[("only_old.dat", 0)]);
    disk.write_sidecar(100, 555, &[("core.dat", 0), ("extra.dat", 0)]);
    disk.install_current(100, 555);
    disk.touch("only_old.dat");
    disk.touch("core.dat");
    disk.touch("extra.dat");
    assert!(disk.mark(record_pending_cleanup(CONFIG, 100, 444, 555)));
    // Lop the last entry off the file list of the installed build.
    let path = filelist_sidecar_path(CONFIG, 100, 555);
    let name = path.strip_prefix("cfg/").unwrap();
    let full = String::from_utf8(disk.config[name].clone()).unwrap();
    let cut = full.rsplit_once("extra.dat").unwrap().0;
    disk.config.insert(name.to_string(), cut.as_bytes().to_vec());

    let deleted = disk.cleanup(&[spec(100, 555)]);

    assert_eq!(deleted, 0, "an incomplete keep-union must defer the pass");
    assert!(disk.holds("only_old.dat"));
    assert!(disk.holds("extra.dat"));
}

#[test]
fn in_progress_depot_defers_whole_pass() {
    // What a depot in flight will hold is not known, so a file that moves into
    // it cannot be told from a stale one.
    let mut disk = Disk::default();
    disk.write_sidecar(100, 444, &[("only_old.dat", 0)]);
    disk.write_sidecar(100, 555, &[("core.dat", 0)]);
    disk.write_sidecar(200, 777, &[("dlc.dat", 0)]);
    disk.install_current(100, 555);
    disk.install_current(200, INVALID_MANIFEST_ID);
    disk.touch("only_old.dat");
    disk.touch("core.dat");
    disk.touch("dlc.dat");
    assert!(disk.mark(record_pending_cleanup(CONFIG, 100, 444, 555)));

    let deleted = disk.cleanup(&[spec(100, 555)]);

    assert_eq!(deleted, 0, "deferred while depot 200 is in flight");
    assert!(disk.holds("only_old.dat"));
    assert!(disk.holds("dlc.dat"));
    assert_eq!(disk.pending(), vec![(100, 444)]);
}

#[test]
fn cross_depot_file_moving_into_in_flight_depot_survives() {
    // shared.dat was in depot 100's old build and is not in its current one,
    // but the depot in flight ships it.
    let mut disk = Disk::default();
    disk.write_sidecar(100, 444, &[("shared.dat", 0), ("only_old.dat", 0)]);
    disk.write_sidecar(100, 555, &[("core.dat", 0)]);
    disk.install_current(100, 555);
    disk.install_current(200, INVALID_MANIFEST_ID);
    disk.touch("shared.dat");
    disk.touch("core.dat");
    disk.touch("only_old.dat");
    assert!(disk.mark(record_pending_cleanup(CONFIG, 100, 444, 555)));

    let deleted = disk.cleanup(&[spec(100, 555)]);

    assert_eq!(deleted, 0);
    assert!(
        disk.holds("shared.dat"),
        "live file shipped by the in-flight depot must survive"
    );
}

#[test]
fn sweeps_cached_old_build_without_a_marker() {
    // The files of an aborted build are reclaimed from its cached file list,
    // even when no marker exists.
    let mut disk = Disk::default();
    disk.write_sidecar(100, 555, &[("core.dat", 0)]);
    disk.write_sidecar(100, 777, &[("core.dat", 0), ("dropped_in_patch.dll", 0)]);
    disk.install_current(100, 555);
    disk.touch("core.dat");
    disk.touch("dropped_in_patch.dll");
    disk.touch("user_mod.cfg");
    assert!(disk.pending().is_empty());

    let deleted = disk.cleanup(&[spec(100, 555)]);

    assert_eq!(deleted, 1);
    assert!(
        !disk.holds("dropped_in_patch.dll"),
        "aborted build's file swept"
    );
    assert!(disk.holds("core.dat"));
    assert!(disk.holds("user_mod.cfg"), "user-added mod preserved");
}

#[test]
fn normalization_matches_dotted_and_doubled_separator_spellings() {
    assert_eq!(normalized_key("./Bin//Game.EXE"), "bin/game.exe");
    assert_eq!(normalized_key("bin/game.exe"), "bin/game.exe");

    // The old build spells it plainly, the new one with "./": the same file.
    let mut disk = Disk::default();
    disk.write_sidecar(100, 444, &[("bin/x.dll", 0), ("only_old.dat", 0)]);
    disk.write_sidecar(100, 555, &[("./bin//x.dll", 0)]);
    disk.install_current(100, 555);
    disk.touch("bin/x.dll");
    disk.touch("only_old.dat");
    assert!(disk.mark(record_pending_cleanup(CONFIG, 100, 444, 555)));

    let deleted = disk.cleanup(&[spec(100, 555)]);
    assert_eq!(deleted, 1);
    assert!(disk.holds("bin/x.dll"));
    assert!(!disk.holds("only_old.dat"));
}

#[test]
fn rejects_unsafe_manifest_paths() {
    assert_eq!(
        sanitized_components("bin/game.exe"),
        Some(vec!["bin", "game.exe"])
    );
    assert_eq!(
        sanitized_components("./bin//game.exe"),
        Some(vec!["bin", "game.exe"])
    );
    assert_eq!(sanitized_components(""), None);
    assert_eq!(sanitized_components("."), None);
    assert_eq!(sanitized_components("/etc/passwd"), None);
    assert_eq!(sanitized_components("../outside.dat"), None);
    assert_eq!(sanitized_components("bin/../../outside.dat"), None);
    assert_eq!(sanitized_components("c:/windows/system32"), None);
    assert_eq!(sanitized_components(".DepotDownloader/depot.config"), None);
    assert_eq!(sanitized_components(".depotdownloader/depot.config"), None);
    assert_eq!(sanitized_components("bad\nname"), None);
}

#[test]
fn deletes_steamless_backup_only_for_unkept_exe_primaries() {
    let mut disk = Disk::default();
    disk.write_manifest(
        100,
        444,
        &[("old.exe", 0), ("game.exe", 0), ("data.pak", 0)],
    );
    disk.write_manifest(100, 555, &[("game.exe", 0)]);
    disk.install_current(100, 555);
    disk.touch("old.exe");
    disk.touch("old.exe.original.exe");
    disk.touch("game.exe");
    disk.touch("game.exe.original.exe");
    disk.touch("data.pak");
    disk.touch("data.pak.original.exe");
    assert!(disk.mark(record_pending_cleanup(CONFIG, 100, 444, 555)));

    let deleted = disk.cleanup(&[spec(100, 555)]);

    assert_eq!(deleted, 3);
    assert!(!disk.holds("old.exe"));
    assert!(!disk.holds("old.exe.original.exe"));
    assert!(disk.holds("game.exe"));
    assert!(disk.holds("game.exe.original.exe"));
    assert!(!disk.holds("data.pak"));
    assert!(
        disk.holds("data.pak.original.exe"),
        "backup deletion is exe-only"
    );
}

#[test]
fn keeps_backup_shipped_by_current_manifest() {
    let mut disk = Disk::default();
    disk.write_manifest(100, 444, &[("tool.exe", 0)]);
    disk.write_manifest(
        100,
        555,
        &[("tool.exe.original.exe", 0), ("core.dat", 0)],
    );
    disk.install_current(100, 555);
    disk.touch("tool.exe");
    disk.touch("tool.exe.original.exe");
    assert!(disk.mark(record_pending_cleanup(CONFIG, 100, 444, 555)));

    let deleted = disk.cleanup(&[spec(100, 555)]);

    assert_eq!(deleted, 1);
    assert!(!disk.holds("tool.exe"));
    assert!(
        disk.holds("tool.exe.original.exe"),
        "current manifest ships this exact name"
    );
}

#[test]
fn skips_candidates_behind_symlinked_directories() {
    let mut disk = Disk::default();
    disk.outside.insert(parts("precious.dat"), Node::File);
    disk.nodes.insert(parts("link"), Node::Link);

    disk.write_manifest(100, 444, &[("link/precious.dat", 0)]);
    disk.write_manifest(100, 555, &[("core.dat", 0)]);
    disk.install_current(100, 555);
    assert!(disk.mark(record_pending_cleanup(CONFIG, 100, 444, 555)));

    let deleted = disk.cleanup(&[spec(100, 555)]);

    assert_eq!(deleted, 0);
    assert!(disk.outside.contains_key(&parts("precious.dat")));
    assert!(disk.holds("link"));
}

#[test]
fn aborted_build_marker_reclaims_partial_files_after_revert() {
    let mut disk = Disk::default();
    // Build 555 committed; the update to 777 was cancelled after its file list
    // was written and one of its files had landed on disk.
    disk.write_sidecar(100, 555, &[("game.exe", 0), ("data.pak", 0)]);
    disk.write_sidecar(100, 777, &[("game.exe", 0), ("dropped_in_patch.dll", 0)]);
    disk.install_current(100, 555);
    disk.touch("game.exe");
    disk.touch("data.pak");
    disk.touch("dropped_in_patch.dll");
    assert!(disk.mark(record_aborted_build(CONFIG, 100, 777)));
    assert!(!disk.mark(record_aborted_build(CONFIG, 100, 0)));
    assert!(!disk.mark(record_aborted_build(CONFIG, 100, INVALID_MANIFEST_ID)));

    let deleted = disk.cleanup(&[spec(100, 555)]);

    assert_eq!(deleted, 1);
    assert!(!disk.holds("dropped_in_patch.dll"));
    assert!(disk.holds("game.exe"));
    assert!(disk.holds("data.pak"));
    assert!(disk.pending().is_empty());
}

#[test]
fn aborted_build_marker_dropped_when_build_later_commits() {
    let mut disk = Disk::default();
    disk.write_sidecar(100, 777, &[("game.exe", 0), ("dropped_in_patch.dll", 0)]);
    disk.install_current(100, 777);
    disk.touch("game.exe");
    disk.touch("dropped_in_patch.dll");
    assert!(disk.mark(record_aborted_build(CONFIG, 100, 777)));

    let deleted = disk.cleanup(&[spec(100, 777)]);

    assert_eq!(deleted, 0);
    assert!(disk.holds("dropped_in_patch.dll"));
    assert!(disk.pending().is_empty());
}

#[test]
fn marker_for_current_manifest_is_dropped_without_deletions() {
    let mut disk = Disk::default();
    disk.write_manifest(100, 555, &[("core.dat", 0)]);
    disk.install_current(100, 555);
    disk.touch("core.dat");
    let path = stale_cleanup_marker_path(CONFIG, 100, 555);
    let name = path.strip_prefix("cfg/").unwrap();
    disk.config.insert(name.to_string(), b"555".to_vec());

    let deleted = disk.cleanup(&[spec(100, 555)]);

    assert_eq!(deleted, 0);
    assert!(disk.holds("core.dat"));
    assert!(disk.pending().is_empty());
}

// What a pass asks, and in which order.

#[test]
fn pass_asks_in_order() {
    let mut disk = Disk::default();
    disk.write_manifest(100, 444, &[("bin/old/a.exe", 0)]);
    disk.write_sidecar(100, 555, &[("bin/new.exe", 0)]);
    disk.install_current(100, 555);
    disk.touch("bin/old/a.exe");
    disk.touch("bin/new.exe");

    assert_eq!(disk.cleanup(&[spec(100, 555)]), 1);
    let raw = raw_manifest(&[("bin/old/a.exe", 0)]);
    assert_eq!(
        disk.asked,
        vec![
            "Installed".to_string(),
            "Names".to_string(),
            "Names".to_string(),
            "Sidecar(100, 555)".to_string(),
            "Sidecar(100, 444)".to_string(),
            "Manifest(100, 444)".to_string(),
            format!("Decode({raw:?}, {:?})", vec![1u8; 32]),
            "IsLink([\"bin\"])".to_string(),
            "IsLink([\"bin\", \"old\"])".to_string(),
            "Stat([\"bin\", \"old\", \"a.exe\"])".to_string(),
            "RemoveFile([\"bin\", \"old\", \"a.exe\"])".to_string(),
            "Stat([\"bin\", \"old\", \"a.exe.original.exe\"])".to_string(),
            "RemoveDir([\"bin\", \"old\"])".to_string(),
            "RemoveDir([\"bin\"])".to_string(),
            "DropMarker(100, 444)".to_string(),
            "DropMarker(100, 555)".to_string(),
            "Done(1)".to_string(),
        ]
    );
    assert!(!disk.holds("bin/old"));
    assert!(disk.holds("bin"));
}

#[test]
fn reply_to_another_question_changes_nothing() {
    let depots = [spec(100, 555)];
    let mut pass = run_stale_file_cleanup(&depots);
    assert_eq!(pass.request(), Request::Installed);
    pass.resume(Reply::Flag(true));
    pass.resume(Reply::Names(vec!["100_444.filelist".to_string()]));
    pass.resume(Reply::Dropped);
    pass.resume(Reply::Text(None));
    pass.resume(Reply::Bytes(None));
    pass.resume(Reply::Manifest(None));
    pass.resume(Reply::Kind(NodeKind::Other));
    assert_eq!(pass.request(), Request::Installed);
    pass.resume(Reply::Installed(vec![(100, 555)]));
    assert_eq!(pass.request(), Request::Names);
}

#[test]
fn pass_with_nothing_cached_is_done_at_once() {
    let mut disk = Disk::default();
    disk.install_current(100, 555);
    disk.touch("core.dat");
    assert_eq!(disk.cleanup(&[spec(100, 555)]), 0);
    assert_eq!(disk.asked, vec!["Installed", "Names", "Names", "Done(0)"]);
    assert!(disk.holds("core.dat"));
}

#[test]
fn first_key_that_counts_is_the_last_one() {
    let mut first = spec(100, 555);
    first.depot_key = vec![7];
    let depots = [first, spec(200, 1), spec(100, 555)];
    assert_eq!(key_of_depot(&depots, 100), Some(&vec![1u8; 32]));
    assert_eq!(key_of_depot(&depots, 300), None);
}

#[test]
fn empty_manifest_cache_is_unreadable() {
    let mut disk = Disk::default();
    disk.write_sidecar(100, 555, &[("core.dat", 0)]);
    disk.config.insert("100_444.manifest".to_string(), Vec::new());
    disk.install_current(100, 555);
    assert!(disk.mark(record_pending_cleanup(CONFIG, 100, 444, 555)));
    assert_eq!(disk.cleanup(&[spec(100, 555)]), 0);
    assert_eq!(disk.pending(), vec![(100, 444)]);
    assert_eq!(usable_manifest(Some(vec![])), None);
    assert_eq!(usable_manifest(None), None);
    assert_eq!(usable_manifest(Some(vec![5])), Some(vec![5]));
}

#[test]
fn manifest_sealed_with_another_key_is_unreadable() {
    let mut disk = Disk::default();
    disk.write_sidecar(100, 555, &[("core.dat", 0)]);
    disk.write_manifest(100, 444, &[("only_old.dat", 0)]);
    disk.install_current(100, 555);
    disk.touch("only_old.dat");
    let mut depot = spec(100, 555);
    depot.depot_key = vec![2u8; 32];
    assert_eq!(disk.cleanup(&[depot]), 0);
    assert!(disk.holds("only_old.dat"));
    assert_eq!(disk.cleanup(&[spec(100, 555)]), 1);
    assert!(!disk.holds("only_old.dat"));
}

#[test]
fn directory_where_a_file_was_is_left() {
    let mut disk = Disk::default();
    disk.write_sidecar(100, 555, &[("core.dat", 0)]);
    disk.write_sidecar(100, 444, &[("thing", 0)]);
    disk.install_current(100, 555);
    disk.touch("thing/saved.dat");
    assert_eq!(disk.cleanup(&[]), 0);
    assert!(disk.holds("thing/saved.dat"));
}

#[test]
fn file_that_cannot_be_removed_is_not_counted() {
    let mut disk = Disk::default();
    disk.write_sidecar(100, 555, &[("core.dat", 0)]);
    disk.write_sidecar(100, 444, &[("old/a.exe", 0), ("old/b.dat", 0)]);
    disk.install_current(100, 555);
    disk.touch("old/a.exe");
    disk.touch("old/a.exe.original.exe");
    disk.touch("old/b.dat");
    disk.stuck.push(parts("old/a.exe"));
    assert_eq!(disk.cleanup(&[]), 1);
    assert!(disk.holds("old/a.exe"));
    assert!(disk.holds("old/a.exe.original.exe"), "goes only with its file");
    assert!(!disk.holds("old/b.dat"));
    assert!(disk.holds("old"));
}

#[test]
fn empty_dirs_go_from_the_deepest_up() {
    let mut disk = Disk::default();
    disk.write_sidecar(100, 555, &[("keep/core.dat", 0)]);
    disk.write_sidecar(
        100,
        444,
        &[
            ("a", DEPOT_FILE_FLAG_DIRECTORY),
            ("a/b", DEPOT_FILE_FLAG_DIRECTORY),
            ("a/b/c", DEPOT_FILE_FLAG_DIRECTORY),
            ("keep/sub", DEPOT_FILE_FLAG_DIRECTORY),
            ("full", DEPOT_FILE_FLAG_DIRECTORY),
        ],
    );
    disk.install_current(100, 555);
    disk.nodes.insert(parts("a"), Node::Directory);
    disk.nodes.insert(parts("a/b"), Node::Directory);
    disk.nodes.insert(parts("a/b/c"), Node::Directory);
    disk.nodes.insert(parts("keep/sub"), Node::Directory);
    disk.touch("keep/core.dat");
    disk.touch("full/user.cfg");
    assert_eq!(disk.cleanup(&[]), 0);
    assert!(!disk.holds("a"));
    assert!(!disk.holds("a/b/c"));
    assert!(!disk.holds("keep/sub"));
    assert!(disk.holds("keep"));
    assert!(disk.holds("full/user.cfg"));
}

#[test]
fn link_of_an_old_build_goes_as_a_file() {
    let mut disk = Disk::default();
    disk.write_sidecar(100, 555, &[("core.dat", 0)]);
    disk.write_sidecar(100, 444, &[("link", 0)]);
    disk.install_current(100, 555);
    disk.nodes.insert(parts("link"), Node::Link);
    disk.outside.insert(parts("precious.dat"), Node::File);
    assert_eq!(disk.cleanup(&[]), 1);
    assert!(!disk.holds("link"));
    assert!(disk.outside.contains_key(&parts("precious.dat")));
}

#[test]
fn second_pass_removes_no_more_files() {
    let mut disk = Disk::default();
    disk.write_sidecar(100, 555, &[("core.dat", 0)]);
    disk.write_sidecar(100, 444, &[("a/x.dat", 0), ("b.exe", 0)]);
    disk.write_sidecar(100, 333, &[("a/x.dat", 0), ("c.dat", 0)]);
    disk.install_current(100, 555);
    disk.touch("a/x.dat");
    disk.touch("b.exe");
    disk.touch("b.exe.original.exe");
    disk.touch("c.dat");
    disk.touch("core.dat");
    assert_eq!(disk.cleanup(&[]), 4);
    assert_eq!(disk.cleanup(&[]), 0);
    assert_eq!(disk.nodes.keys().cloned().collect::<Vec<_>>(), vec![parts("core.dat")]);
}

#[test]
fn no_file_loses_its_directory() {
    let mut disk = Disk::default();
    disk.write_sidecar(100, 555, &[("a/b/keep.dat", 0)]);
    disk.write_sidecar(100, 444, &[("a/b/old.dat", 0), ("a/c/old.dat", 0), ("a/d/e/old.dat", 0)]);
    disk.install_current(100, 555);
    for rel in ["a/b/keep.dat", "a/b/old.dat", "a/c/old.dat", "a/d/e/old.dat", "a/d/user.cfg"] {
        disk.touch(rel);
    }
    assert_eq!(disk.cleanup(&[]), 3);
    for path in disk.nodes.keys() {
        for depth in 1..path.len() {
            assert_eq!(disk.nodes.get(&path[..depth].to_vec()), Some(&Node::Directory));
        }
    }
    assert!(!disk.holds("a/c"));
    assert!(!disk.holds("a/d/e"));
    assert!(disk.holds("a/d/user.cfg"));
}

#[test]
fn backup_named_as_an_executable_of_its_own() {
    // The second file goes as the backup of the first, and its own backup
    // is then left.
    let mut disk = Disk::default();
    disk.write_sidecar(100, 555, &[("core.dat", 0)]);
    disk.write_sidecar(100, 444, &[("a.exe", 0), ("a.exe.original.exe", 0)]);
    disk.install_current(100, 555);
    disk.touch("a.exe");
    disk.touch("a.exe.original.exe");
    disk.touch("a.exe.original.exe.original.exe");
    assert_eq!(disk.cleanup(&[]), 2);
    assert!(disk.holds("a.exe.original.exe.original.exe"));
}

#[test]
fn backup_named_as_an_executable_comes_first() {
    // Each file is named before it could go as the backup of another.
    let mut disk = Disk::default();
    disk.write_sidecar(100, 555, &[("core.dat", 0)]);
    disk.write_sidecar(100, 444, &[("a.exe.original.exe", 0), ("a.exe", 0)]);
    disk.install_current(100, 555);
    disk.touch("a.exe");
    disk.touch("a.exe.original.exe");
    disk.touch("a.exe.original.exe.original.exe");
    assert_eq!(disk.cleanup(&[]), 3);
    assert!(disk.nodes.is_empty());
}

#[test]
fn backup_without_its_file_stays() {
    let mut disk = Disk::default();
    disk.write_sidecar(100, 555, &[("core.dat", 0)]);
    disk.write_sidecar(100, 444, &[("a.exe", 0)]);
    disk.install_current(100, 555);
    disk.touch("a.exe.original.exe");
    assert_eq!(disk.cleanup(&[]), 0);
    assert!(disk.holds("a.exe.original.exe"));
}

#[test]
fn own_files_and_unsafe_names_are_never_removed() {
    let mut disk = Disk::default();
    disk.write_sidecar(100, 555, &[("core.dat", 0)]);
    disk.write_sidecar(
        100,
        444,
        &[
            (".DepotDownloader/depot.config", 0),
            ("../outside.dat", 0),
            ("/abs.dat", 0),
            ("c:/x.dat", 0),
        ],
    );
    disk.install_current(100, 555);
    disk.touch(".DepotDownloader/depot.config");
    assert_eq!(disk.cleanup(&[]), 0);
    assert!(disk.holds(".DepotDownloader/depot.config"));
    assert!(disk.asked.iter().all(|asked| !asked.starts_with("Stat")));
}

#[test]
fn depot_listed_twice_has_its_last_build_installed() {
    let mut disk = Disk::default();
    disk.write_sidecar(100, 444, &[("old.dat", 0)]);
    disk.write_sidecar(100, 555, &[("new.dat", 0)]);
    disk.installed = vec![(100, 444), (100, 555)];
    disk.touch("old.dat");
    // What the first one holds is kept too.
    assert_eq!(disk.cleanup(&[]), 0);
    assert!(disk.holds("old.dat"));
    assert!(disk.mark(record_aborted_build(CONFIG, 100, 555)));
    assert_eq!(disk.cleanup(&[]), 0);
    assert!(disk.pending().is_empty());
}

#[test]
fn backfill_writes_only_what_is_missing() {
    let depot = spec(100, 555);
    let known = manifest(&[("bin", DEPOT_FILE_FLAG_DIRECTORY), ("bin/a", 0)]);
    assert_eq!(
        backfill_filelist_sidecar(CONFIG, &depot, false, Some(known.clone())),
        Some(FileWrite {
            path: "cfg/100_555.filelist".to_string(),
            contents: "WNFL1 2\nD bin\nF bin/a\n".to_string(),
        })
    );
    assert_eq!(backfill_filelist_sidecar(CONFIG, &depot, true, Some(known)), None);
    assert_eq!(backfill_filelist_sidecar(CONFIG, &depot, false, None), None);
}

#[test]
fn markers_hold_the_manifest_id() {
    assert_eq!(
        record_pending_cleanup("some/dir/", 100, 444, 555),
        Some(FileWrite {
            path: "some/dir/100_444.stalecleanup".to_string(),
            contents: "444".to_string(),
        })
    );
    assert_eq!(
        record_aborted_build("", u32::MAX, u64::MAX - 1),
        Some(FileWrite {
            path: "4294967295_18446744073709551614.stalecleanup".to_string(),
            contents: "18446744073709551614".to_string(),
        })
    );
}

#[test]
fn pending_markers_are_ordered_and_strict() {
    let names: Vec<String> = [
        "200_1.stalecleanup",
        "100_20.stalecleanup",
        "100_3.stalecleanup",
        "100_3.stalecleanup",
        "+7_8.stalecleanup",
        "100_444.filelist",
        "100_444_1.stalecleanup",
        "100.stalecleanup",
        "_1.stalecleanup",
        "4294967296_1.stalecleanup",
        "1_18446744073709551616.stalecleanup",
        "1_18446744073709551615.stalecleanup",
        "x_1.stalecleanup",
        "1_-1.stalecleanup",
        "stalecleanup",
    ]
    .iter()
    .map(|name| name.to_string())
    .collect();
    assert_eq!(
        pending_cleanup_markers(&names),
        vec![
            (1, 18446744073709551615),
            (7, 8),
            (100, 3),
            (100, 20),
            (200, 1)
        ]
    );
}

#[test]
fn cached_builds_come_from_lists_and_manifests() {
    let names: Vec<String> = [
        "100_5.filelist",
        "100_5.manifest",
        "100_4.manifest",
        "100_9.stalecleanup",
        "a.manifest",
    ]
    .iter()
    .map(|name| name.to_string())
    .collect();
    assert_eq!(
        wn_steam_client::depot_cleanup::builds::collect_cached_builds(&names),
        vec![(100, 4), (100, 5)]
    );
}

#[test]
fn names_and_paths_of_build_files() {
    assert_eq!(stale_cleanup_marker_name(7, 0), "7_0.stalecleanup");
    assert_eq!(stale_cleanup_marker_path("/c", 7, 12), "/c/7_12.stalecleanup");
    assert_eq!(filelist_sidecar_path("/c/", 7, 12), "/c/7_12.filelist");
    assert_eq!(filelist_sidecar_path("", 7, 12), "7_12.filelist");
}

#[test]
fn file_lists_that_cannot_be_read() {
    assert_eq!(read_filelist_sidecar(""), None);
    assert_eq!(read_filelist_sidecar("WNFL2 0\n"), None);
    assert_eq!(read_filelist_sidecar("WNFL1 x\n"), None);
    assert_eq!(read_filelist_sidecar("WNFL1 2\nF a\n"), None);
    assert_eq!(read_filelist_sidecar("WNFL1 1\nF a\nF \n"), read_filelist_sidecar("WNFL1 1\nF a\n"));
    assert_eq!(read_filelist_sidecar("WNFL1 1\nF \n"), None);
    assert_eq!(read_filelist_sidecar("WNFL1 1\nX a\n"), None);
    assert_eq!(read_filelist_sidecar("WNFL1 0"), Some(vec![]));
    assert_eq!(
        read_filelist_sidecar("WNFL1  +1 \r\nD \u{e9} b\r\n"),
        Some(vec![FileEntry {
            name: "\u{e9} b".to_string(),
            is_dir: true
        }])
    );
}

#[test]
fn names_with_line_breaks_are_not_listed() {
    let write = write_filelist_sidecar(CONFIG, 1, 2, &manifest(&[("a\nb", 0), ("c", 0x40 | 0x20)]));
    assert_eq!(write.contents, "WNFL1 1\nD c\n");
    assert_eq!(
        read_filelist_sidecar(&write.contents),
        Some(vec![FileEntry {
            name: "c".to_string(),
            is_dir: true
        }])
    );
}

#[test]
fn every_cut_of_a_file_list_is_noticed_or_tears_only_the_last_name() {
    let write = write_filelist_sidecar(CONFIG, 1, 2, &manifest(&[("aa", 0), ("bbb", 0)]));
    let full = write.contents;
    for cut in 0..full.len() {
        match read_filelist_sidecar(&full[..cut]) {
            None => {}
            Some(entries) => {
                assert_eq!(entries.len(), 2);
                assert_eq!(entries[0].name, "aa");
                assert!("bbb".starts_with(&entries[1].name));
            }
        }
    }
}

#[test]
fn keys_fold_case_and_are_their_own_keys() {
    assert_eq!(normalized_key("A/./B//c"), "a/b/c");
    assert_eq!(normalized_key("\u{c9}A"), "\u{c9}a");
    assert_eq!(normalized_key(""), "");
    assert_eq!(normalized_key("///."), "");
    assert_eq!(normalized_key(&normalized_key("X/Y/Z.EXE")), normalized_key("x/y/z.exe"));
    assert_eq!(normalized_key("a/../b"), "a/../b");
}

#[test]
fn component_rules_at_the_edges() {
    assert_eq!(sanitized_components("..."), Some(vec!["..."]));
    assert_eq!(sanitized_components("a/.../b"), Some(vec!["a", "...", "b"]));
    assert_eq!(sanitized_components("sub/.DepotDownloader"), Some(vec!["sub", ".DepotDownloader"]));
    assert_eq!(sanitized_components("./.DEPOTDOWNLOADER/x"), None);
    assert_eq!(sanitized_components("a\u{7f}"), None);
    assert_eq!(sanitized_components("a\u{80}"), Some(vec!["a\u{80}"]));
    assert_eq!(sanitized_components("a\\b"), Some(vec!["a\\b"]));
    assert_eq!(sanitized_components("a:b"), None);
    assert_eq!(sanitized_components("a/b/"), Some(vec!["a", "b"]));
}
