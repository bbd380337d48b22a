//! Filesystem scenarios: put, get and streaming reads under a sandbox root,
//! run through the same thin glue the unverified shell uses.

use dal::errors::ErrorKind;
use dal::paths::parent_path;
use dal::Error;
use dal::Local;
use tokio::io::AsyncReadExt;
use tokio::io::AsyncWriteExt;

fn rt() -> tokio::runtime::Runtime {
    tokio::runtime::Builder::new_multi_thread()
        .worker_threads(2)
        .enable_all()
        .build()
        .unwrap()
}

fn io_err(e: std::io::Error) -> Error {
    Error::from_io(e.kind() == std::io::ErrorKind::NotFound, format!("{}", e))
}

fn path_str(bytes: Vec<u8>) -> String {
    String::from_utf8(bytes).unwrap()
}

async fn put(l: &Local, path: &str, content: &[u8]) -> Result<(), Error> {
    let target = l.resolve(path)?;
    if let Some(parent) = parent_path(&target) {
        tokio::fs::create_dir_all(path_str(parent)).await.map_err(io_err)?;
    }
    let mut file = tokio::fs::File::create(path_str(target)).await.map_err(io_err)?;
    file.write_all(content).await.map_err(io_err)?;
    file.flush().await.map_err(io_err)?;
    Ok(())
}

async fn get(l: &Local, path: &str) -> Result<Vec<u8>, Error> {
    let target = l.resolve(path)?;
    let mut file = tokio::fs::File::open(path_str(target)).await.map_err(io_err)?;
    let mut contents = vec![];
    file.read_to_end(&mut contents).await.map_err(io_err)?;
    Ok(contents)
}

async fn get_input_stream(l: &Local, path: &str, _len: Option<u64>) -> Result<tokio::fs::File, Error> {
    let target = l.resolve(path)?;
    tokio::fs::File::open(path_str(target)).await.map_err(io_err)
}

fn fresh_root(name: &str) -> String {
    let root = format!("/tmp/dal_backend_tests/{}", name);
    let rt = rt();
    rt.block_on(async {
        let _ = tokio::fs::remove_dir_all(&root).await;
        tokio::fs::create_dir_all(&root).await.unwrap();
    });
    root
}

#[test]
fn put_then_get_round_trips() {
    let root = fresh_root("round_trip");
    let l = Local::new(&root);
    rt().block_on(async {
        put(&l, "a/b.txt", b"hello").await.unwrap();
        assert_eq!(get(&l, "a/b.txt").await.unwrap(), b"hello".to_vec());
    });
}

#[test]
fn empty_payload_round_trips() {
    let root = fresh_root("empty_payload");
    let l = Local::new(&root);
    rt().block_on(async {
        put(&l, "empty.bin", b"").await.unwrap();
        assert_eq!(get(&l, "empty.bin").await.unwrap(), Vec::<u8>::new());
    });
}

#[test]
fn put_creates_missing_parent_directories() {
    let root = fresh_root("parents");
    let l = Local::new(&root);
    rt().block_on(async {
        put(&l, "x/y/z/deep.txt", b"payload").await.unwrap();
        let meta = tokio::fs::metadata(format!("{}/x/y/z", root)).await.unwrap();
        assert!(meta.is_dir());
        assert_eq!(get(&l, "x/y/z/deep.txt").await.unwrap(), b"payload".to_vec());
    });
}

#[test]
fn put_overwrites_existing_object() {
    let root = fresh_root("overwrite");
    let l = Local::new(&root);
    rt().block_on(async {
        put(&l, "o.txt", b"first version").await.unwrap();
        put(&l, "o.txt", b"second").await.unwrap();
        assert_eq!(get(&l, "o.txt").await.unwrap(), b"second".to_vec());
    });
}

#[test]
fn get_on_missing_object_is_not_found() {
    let root = fresh_root("missing_get");
    let l = Local::new(&root);
    rt().block_on(async {
        let e = get(&l, "missing.txt").await.unwrap_err();
        assert_eq!(e.kind(), ErrorKind::NotFound);
    });
}

#[test]
fn get_input_stream_on_missing_object_is_not_found() {
    let root = fresh_root("missing_stream");
    let l = Local::new(&root);
    rt().block_on(async {
        let e = get_input_stream(&l, "missing.txt", None).await.unwrap_err();
        assert_eq!(e.kind(), ErrorKind::NotFound);
    });
}

#[test]
fn draining_the_stream_equals_get() {
    let root = fresh_root("stream_drain");
    let l = Local::new(&root);
    rt().block_on(async {
        put(&l, "a/b.txt", b"hello").await.unwrap();
        let mut stream = get_input_stream(&l, "a/b.txt", None).await.unwrap();
        let mut drained = vec![];
        stream.read_to_end(&mut drained).await.unwrap();
        assert_eq!(drained, b"hello".to_vec());
        assert_eq!(drained, get(&l, "a/b.txt").await.unwrap());
    });
}

#[test]
fn escaping_path_fails_and_touches_nothing_outside_root() {
    let root = fresh_root("escape");
    let l = Local::new(&root);
    rt().block_on(async {
        let e = get(&l, "../escape.txt").await.unwrap_err();
        assert_eq!(e.kind(), ErrorKind::SecurityViolation);
        let e2 = put(&l, "../escape.txt", b"contraband").await.unwrap_err();
        assert_eq!(e2.kind(), ErrorKind::SecurityViolation);
        let outside = tokio::fs::metadata("/tmp/dal_backend_tests/escape.txt").await;
        assert!(outside.is_err());
    });
}

#[test]
fn concurrent_puts_leave_one_whole_payload() {
    let root = fresh_root("concurrent");
    rt().block_on(async {
        let a = vec![b'A'; 8192];
        let b = vec![b'B'; 8192];
        let root_a = root.clone();
        let root_b = root.clone();
        let pa = a.clone();
        let pb = b.clone();
        let ta = tokio::spawn(async move {
            let l = Local::new(&root_a);
            put(&l, "race.bin", &pa).await.unwrap();
        });
        let tb = tokio::spawn(async move {
            let l = Local::new(&root_b);
            put(&l, "race.bin", &pb).await.unwrap();
        });
        ta.await.unwrap();
        tb.await.unwrap();
        let l = Local::new(&root);
        let out = get(&l, "race.bin").await.unwrap();
        assert!(out == a || out == b);
    });
}
