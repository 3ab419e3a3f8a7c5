use poomas::codec::decode_store;
use poomas::jobdb::{update_jobs_str, Job, JobDB, Jobs, StoreError};

#[test]
fn test_update_jobs() {
    let job = Job {
        id: 0,
        command: "".to_owned(),
        time: 0,
    };
    let output = update_jobs_str(job.clone(), "".to_owned()).unwrap();
    let db: Jobs = decode_store(&output).unwrap();
    assert!(db.db == vec![job.clone()]);

    let job2 = Job {
        id: 1,
        command: "xd".to_owned(),
        time: 200,
    };

    let output = update_jobs_str(job2.clone(), output).unwrap();
    let db: Jobs = decode_store(&output).unwrap();
    assert!(db.db == vec![job, job2]);
}

#[test]
fn appends_count_from_zero_in_order() {
    let db = JobDB::new("jobs.toml".to_owned());
    let commands = ["first run", "second run", "third run"];
    let mut raw = String::new();
    for (k, cmd) in commands.iter().enumerate() {
        raw = db.add_job(cmd, 10 * k as u64, raw).unwrap();
    }
    let jobs = decode_store(&raw).unwrap();
    assert_eq!(jobs.db.len(), 3);
    for (k, job) in jobs.db.iter().enumerate() {
        assert_eq!(job.id, k as u64);
        assert_eq!(job.command, commands[k]);
        assert_eq!(job.time, 10 * k as u64);
    }
}

#[test]
fn append_uses_max_id_plus_one_despite_gaps() {
    let existing = Jobs {
        db: vec![
            Job {
                id: 5,
                command: "late".to_owned(),
                time: 1,
            },
            Job {
                id: 3,
                command: "early".to_owned(),
                time: 2,
            },
        ],
    };
    let raw = poomas::codec::encode_store(&existing);
    let db = JobDB::new("jobs.toml".to_owned());
    let raw = db.add_job("new", 7, raw).unwrap();
    let jobs = decode_store(&raw).unwrap();
    assert_eq!(jobs.db.len(), 3);
    assert_eq!(jobs.db[0].id, 5);
    assert_eq!(jobs.db[1].id, 3);
    assert_eq!(jobs.db[2].id, 6);
    assert_eq!(jobs.db[2].command, "new");
}

#[test]
fn append_fails_when_max_id_cannot_grow() {
    let existing = Jobs {
        db: vec![Job {
            id: u64::MAX,
            command: "huge".to_owned(),
            time: 0,
        }],
    };
    let raw = poomas::codec::encode_store(&existing);
    let db = JobDB::new("jobs.toml".to_owned());
    let res = db.add_job("overflow", 1, raw);
    assert_eq!(res, Err(StoreError::IdOverflow));
}

#[test]
fn append_to_corrupt_store_fails_without_output() {
    let job = Job {
        id: 0,
        command: "x".to_owned(),
        time: 1,
    };
    let res = update_jobs_str(job, "this is not a store".to_owned());
    assert_eq!(res, Err(StoreError::Corrupt));
}
