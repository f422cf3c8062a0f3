use applesource::errors::ImportError;
use applesource::history::{
    create_component_repository, create_release_repository, import_release_version, DedupCache,
};
use applesource::records::{ComponentRecord, ReleaseComponentRecord, ReleaseRecord};
use applesource::repo::{init_repository, Repo};
use applesource::tree::{mode_for, tar_data_to_tree};

fn octal(buf: &mut [u8], off: usize, width: usize, val: u64) {
    let s = format!("{:0>width$o}", val, width = width - 1);
    buf[off..off + width - 1].copy_from_slice(s.as_bytes());
    buf[off + width - 1] = 0;
}

fn tar_header(path: &str, mode: u32, typeflag: u8, size: u64, link: &str) -> Vec<u8> {
    let mut h = vec![0u8; 512];
    h[..path.as_bytes().len()].copy_from_slice(path.as_bytes());
    octal(&mut h, 100, 8, mode as u64);
    octal(&mut h, 108, 8, 0);
    octal(&mut h, 116, 8, 0);
    octal(&mut h, 124, 12, size);
    octal(&mut h, 136, 12, 0);
    h[156] = typeflag;
    h[157..157 + link.as_bytes().len()].copy_from_slice(link.as_bytes());
    h[257..263].copy_from_slice(b"ustar\x00");
    h[263..265].copy_from_slice(b"00");
    for i in 148..156 {
        h[i] = b' ';
    }
    let sum: u64 = h.iter().map(|b| *b as u64).sum();
    let s = format!("{:06o}", sum);
    h[148..154].copy_from_slice(s.as_bytes());
    h[154] = 0;
    h[155] = b' ';
    h
}

fn tar_file(path: &str, mode: u32, content: &[u8]) -> Vec<u8> {
    let mut v = tar_header(path, mode, b'0', content.len() as u64, "");
    v.extend_from_slice(content);
    while v.len() % 512 != 0 {
        v.push(0);
    }
    v
}

fn tar_dir(path: &str) -> Vec<u8> {
    tar_header(path, 0o755, b'5', 0, "")
}

fn tar_symlink(path: &str, target: &str) -> Vec<u8> {
    tar_header(path, 0o777, b'2', 0, target)
}

fn gzip(data: &[u8]) -> Vec<u8> {
    let rt = tokio::runtime::Builder::new_current_thread().build().unwrap();
    rt.block_on(async {
        let mut enc = async_compression::tokio::bufread::GzipEncoder::new(std::io::Cursor::new(
            data.to_vec(),
        ));
        let mut out = Vec::new();
        tokio::io::AsyncReadExt::read_to_end(&mut enc, &mut out)
            .await
            .unwrap();
        out
    })
}

fn archive(parts: &[Vec<u8>]) -> Vec<u8> {
    let mut v = Vec::new();
    for p in parts {
        v.extend_from_slice(p);
    }
    v.extend_from_slice(&[0u8; 1024]);
    gzip(&v)
}

fn fresh_repo(name: &str) -> (Repo, String) {
    let path = format!("/tmp/applesource_tests/{}", name);
    let repo = init_repository(&path, true).unwrap();
    (repo, path)
}

fn oid(bytes: &[u8]) -> git2::Oid {
    git2::Oid::from_bytes(bytes).unwrap()
}

#[test]
fn mode_mapping() {
    assert_eq!(mode_for(0o755), Some(0o100755));
    assert_eq!(mode_for(0o111), Some(0o100755));
    assert_eq!(mode_for(0o644), Some(0o100644));
    assert_eq!(mode_for(0o400), Some(0o100644));
    assert_eq!(mode_for(0), Some(0o100644));
    assert_eq!(mode_for(0o222), None);
    assert_eq!(mode_for(0o200), None);
}

#[test]
fn empty_archive_builds_empty_tree() {
    let (repo, _) = fresh_repo("empty_archive");
    let data = gzip(&[0u8; 1024]);
    let id = tar_data_to_tree(&data, &repo).unwrap();
    let expected = git2::Oid::from_str("4b825dc642cb6eb9a060e54bf8d69288fbee4904").unwrap();
    assert_eq!(oid(&id), expected);
}

#[test]
fn build_places_files_under_stripped_root() {
    let (repo, path) = fresh_repo("stripped_root");
    let data = archive(&[
        tar_dir("pkg-1.0/"),
        tar_file("pkg-1.0/README", 0o644, b"hello"),
        tar_dir("pkg-1.0/src/"),
        tar_file("pkg-1.0/src/main.c", 0o755, b"int main;"),
        tar_symlink("pkg-1.0/link", "README"),
    ]);
    let id = tar_data_to_tree(&data, &repo).unwrap();
    let g = git2::Repository::open(&path).unwrap();
    let tree = g.find_tree(oid(&id)).unwrap();
    let readme = tree.get_name("README").expect("README at root");
    assert_eq!(readme.filemode(), 0o100644);
    let link = tree.get_name("link").expect("symlink at root");
    assert_eq!(link.filemode(), 0o120000);
    let blob = g.find_blob(link.id()).unwrap();
    assert_eq!(blob.content(), b"README");
    let sub = tree.get_name("src").expect("src dir at root");
    assert_eq!(sub.filemode(), 0o040000);
    let subtree = g.find_tree(sub.id()).unwrap();
    let main_c = subtree.get_name("main.c").expect("main.c in src");
    assert_eq!(main_c.filemode(), 0o100755);
    assert_eq!(
        g.find_blob(main_c.id()).unwrap().content(),
        b"int main;"
    );
    assert!(tree.get_name("pkg-1.0").is_none());
}

#[test]
fn build_is_idempotent() {
    let (repo, _) = fresh_repo("idempotent");
    let data = archive(&[
        tar_dir("x-1/"),
        tar_file("x-1/a", 0o644, b"aaa"),
        tar_file("x-1/b/c", 0o644, b"ccc"),
    ]);
    let id1 = tar_data_to_tree(&data, &repo).unwrap();
    let id2 = tar_data_to_tree(&data, &repo).unwrap();
    assert_eq!(id1, id2);
}

#[test]
fn build_is_independent_of_entry_order() {
    let (repo, _) = fresh_repo("entry_order");
    let parts_one = [
        tar_file("x-1/a", 0o644, b"aaa"),
        tar_file("x-1/sub/b", 0o644, b"bbb"),
        tar_file("x-1/sub/c", 0o755, b"ccc"),
    ];
    let parts_two = [
        tar_file("x-1/sub/c", 0o755, b"ccc"),
        tar_file("x-1/a", 0o644, b"aaa"),
        tar_file("x-1/sub/b", 0o644, b"bbb"),
    ];
    let id1 = tar_data_to_tree(&archive(&parts_one), &repo).unwrap();
    let id2 = tar_data_to_tree(&archive(&parts_two), &repo).unwrap();
    assert_eq!(id1, id2);
}

#[test]
fn unsupported_mode_fails() {
    let (repo, _) = fresh_repo("bad_mode");
    let data = archive(&[tar_file("x-1/a", 0o222, b"secret")]);
    assert_eq!(
        tar_data_to_tree(&data, &repo),
        Err(ImportError::InvalidArchiveMode)
    );
}

#[test]
fn garbage_bytes_fail() {
    let (repo, _) = fresh_repo("garbage");
    let data = b"this is not a gzip stream".to_vec();
    assert_eq!(tar_data_to_tree(&data, &repo), Err(ImportError::MalformedArchive));
}

#[test]
fn entry_outside_any_directory_is_skipped() {
    let (repo, _) = fresh_repo("toplevel_skip");
    let with_stray = archive(&[
        tar_file("stray", 0o644, b"stray"),
        tar_file("x-1/a", 0o644, b"aaa"),
    ]);
    let without = archive(&[tar_file("x-1/a", 0o644, b"aaa")]);
    let id1 = tar_data_to_tree(&with_stray, &repo).unwrap();
    let id2 = tar_data_to_tree(&without, &repo).unwrap();
    assert_eq!(id1, id2);
}

fn component_record(name: &str, version: &str) -> ComponentRecord {
    ComponentRecord {
        component: name.to_string(),
        filename: format!("{}-{}.tar.gz", name, version),
        url: format!("https://example.invalid/tarballs/{}/{}-{}.tar.gz", name, name, version),
        version: version.to_string(),
    }
}

#[test]
fn component_history_chains_commits_and_tags() {
    let (mut repo, path) = fresh_repo("component_two_versions");
    let arch1 = archive(&[
        tar_dir("sample-1.0/"),
        tar_file("sample-1.0/README", 0o644, b"one"),
        tar_file("sample-1.0/src/main.c", 0o644, b"int main;"),
    ]);
    let arch2 = archive(&[
        tar_dir("sample-1.1/"),
        tar_file("sample-1.1/README", 0o644, b"two"),
        tar_file("sample-1.1/src/main.c", 0o644, b"int main2;"),
    ]);
    let items = vec![
        (component_record("sample", "1.0"), arch1),
        (component_record("sample", "1.1"), arch2),
    ];
    create_component_repository(&mut repo, &items).unwrap();

    let g = git2::Repository::open(&path).unwrap();
    let branch = g.find_branch("main", git2::BranchType::Local).unwrap();
    let last = branch.get().peel_to_commit().unwrap();
    assert_eq!(last.parent_count(), 1);
    let first = last.parent(0).unwrap();
    assert_eq!(first.parent_count(), 0);

    let tag_10 = g
        .find_reference("refs/tags/1.0")
        .unwrap()
        .peel_to_commit()
        .unwrap();
    let tag_11 = g
        .find_reference("refs/tags/1.1")
        .unwrap()
        .peel_to_commit()
        .unwrap();
    assert_eq!(tag_10.id(), first.id());
    assert_eq!(tag_11.id(), last.id());

    for commit in [&first, &last] {
        let tree = commit.tree().unwrap();
        assert!(tree.get_name("README").is_some());
        let src = tree.get_name("src").unwrap();
        let subtree = g.find_tree(src.id()).unwrap();
        assert!(subtree.get_name("main.c").is_some());
        assert!(tree.get_name("sample-1.0").is_none());
        assert!(tree.get_name("sample-1.1").is_none());
    }
    assert!(first.message().unwrap().starts_with("sample 1.0"));
    assert!(last.message().unwrap().contains("Downloaded from"));
}

fn release_component(name: &str, url: &str) -> ReleaseComponentRecord {
    ReleaseComponentRecord {
        entity: "macos".to_string(),
        component: name.to_string(),
        url: url.to_string(),
    }
}

fn release_record(version: &str) -> ReleaseRecord {
    ReleaseRecord {
        entity: "macos".to_string(),
        version: version.to_string(),
        url: format!("https://example.invalid/release/macos-{}.html", version),
    }
}

#[test]
fn release_with_failed_component_still_commits() {
    let (mut repo, path) = fresh_repo("release_partial");
    let arch_a = archive(&[tar_file("a-1/a.txt", 0o644, b"alpha")]);
    let comps = vec![
        (release_component("A", "https://example.invalid/a.tar.gz"), Some(arch_a)),
        (release_component("B", "https://example.invalid/b.tar.gz"), None),
    ];
    let items = vec![(release_record("10.0"), comps)];
    create_release_repository(&mut repo, &items).unwrap();

    let g = git2::Repository::open(&path).unwrap();
    let last = g
        .find_branch("main", git2::BranchType::Local)
        .unwrap()
        .get()
        .peel_to_commit()
        .unwrap();
    assert_eq!(last.parent_count(), 0);
    let tagged = g
        .find_reference("refs/tags/10.0")
        .unwrap()
        .peel_to_commit()
        .unwrap();
    assert_eq!(tagged.id(), last.id());
    let tree = last.tree().unwrap();
    let a = tree.get_name("A").expect("component A present");
    assert_eq!(a.filemode(), 0o040000);
    assert!(tree.get_name("B").is_none());
    let a_tree = g.find_tree(a.id()).unwrap();
    assert!(a_tree.get_name("a.txt").is_some());
}

#[test]
fn release_with_unconvertible_component_still_commits() {
    let (mut repo, path) = fresh_repo("release_unconvertible");
    let arch_a = archive(&[tar_file("a-1/a.txt", 0o644, b"alpha")]);
    // B's bytes arrive but are no gzip stream; C's arrive but hold an
    // entry with an unsupported mode. Both components are omitted; the
    // version still commits.
    let comps = vec![
        (release_component("A", "https://example.invalid/a.tar.gz"), Some(arch_a)),
        (
            release_component("B", "https://example.invalid/b.tar.gz"),
            Some(b"not a gzip stream".to_vec()),
        ),
        (
            release_component("C", "https://example.invalid/c.tar.gz"),
            Some(archive(&[tar_file("c-1/x", 0o222, b"x")])),
        ),
    ];
    let items = vec![(release_record("11.0"), comps)];
    let mut r = repo;
    create_release_repository(&mut r, &items).unwrap();

    let g = git2::Repository::open(&path).unwrap();
    let last = g
        .find_branch("main", git2::BranchType::Local)
        .unwrap()
        .get()
        .peel_to_commit()
        .unwrap();
    let tagged = g
        .find_reference("refs/tags/11.0")
        .unwrap()
        .peel_to_commit()
        .unwrap();
    assert_eq!(tagged.id(), last.id());
    let tree = last.tree().unwrap();
    assert!(tree.get_name("A").is_some());
    assert!(tree.get_name("B").is_none());
    assert!(tree.get_name("C").is_none());
}

#[test]
fn dedup_cache_reuses_component_tree() {
    let (mut repo, path) = fresh_repo("release_dedup");
    let url = "https://example.invalid/shared.tar.gz".to_string();
    let arch = archive(&[tar_file("x-1/data", 0o644, b"shared bytes")]);

    let mut cache = DedupCache::new();
    assert!(!cache.contains(&url));
    let c1 = import_release_version(
        &mut repo,
        &mut cache,
        &None,
        &release_record("1"),
        &vec![(release_component("X", &url), Some(arch))],
    )
    .unwrap();
    assert!(cache.contains(&url));

    // The second version supplies no bytes at all: only the cache can
    // produce the component's tree.
    let c2 = import_release_version(
        &mut repo,
        &mut cache,
        &Some(c1.clone()),
        &release_record("2"),
        &vec![(release_component("X", &url), None)],
    )
    .unwrap();

    let g = git2::Repository::open(&path).unwrap();
    let commit1 = g.find_commit(oid(&c1)).unwrap();
    let commit2 = g.find_commit(oid(&c2)).unwrap();
    assert_eq!(commit2.parent(0).unwrap().id(), commit1.id());
    let x1 = commit1.tree().unwrap().get_name("X").unwrap().id();
    let x2 = commit2.tree().unwrap().get_name("X").unwrap().id();
    assert_eq!(x1, x2);
}

#[test]
fn empty_version_list_leaves_repository_unborn() {
    let (mut repo, path) = fresh_repo("empty_component");
    let items: Vec<(ComponentRecord, Vec<u8>)> = vec![];
    create_component_repository(&mut repo, &items).unwrap();
    let g = git2::Repository::open(&path).unwrap();
    assert!(g.find_branch("main", git2::BranchType::Local).is_err());
}

#[test]
fn describe_names_each_failure() {
    assert_eq!(ImportError::InvalidArchiveMode.describe(), "invalid tar archive mode");
    assert_eq!(ImportError::MalformedArchive.describe(), "malformed archive");
    assert_eq!(ImportError::RepositoryWrite.describe(), "repository write failed");
}
