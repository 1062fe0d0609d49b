use std::collections::BTreeMap;

use kelp::collections::TextSet;
use kelp::json::Json;
use kelp::publication::{
    change_info, check_canonical, check_object_request, check_publication_length, check_upload, is_replay, next_heads,
    receipt, Ledger,
};
use kelp::{object_id, Error, FileEntry, Problem, Publication, PublicationReceipt, Revision, Snapshot};

/// A server in memory.
#[derive(Default)]
struct Server {
    objects: BTreeMap<(String, String, String), Vec<u8>>,
    snapshots: BTreeMap<String, Snapshot>,
    ledgers: BTreeMap<String, Ledger>,
}

impl Server {
    fn upload(&mut self, project: &str, kind: &str, id: &str, bytes: &[u8]) -> Result<(), Error> {
        check_upload(kind, id, bytes)?;
        self.objects.insert((project.into(), kind.into(), id.into()), bytes.to_vec());
        Ok(())
    }

    fn object(&self, project: &str, kind: &str, id: &str) -> Result<Vec<u8>, Error> {
        check_object_request(kind, id)?;
        self.objects
            .get(&(project.into(), kind.into(), id.into()))
            .cloned()
            .ok_or_else(|| kelp::storage::missing(kind, id))
    }

    fn snapshot(&mut self, bytes: &[u8]) -> String {
        let blob = object_id("blob", bytes);
        self.upload("demo", "blob", &blob, bytes).unwrap();
        let mut snapshot = Snapshot::default();
        snapshot.files.insert(
            "file.txt".into(),
            FileEntry { blob, size: bytes.len() as u64, executable: false, kind: Default::default() },
        );
        let id = snapshot.id().unwrap();
        let text = snapshot.to_json();
        self.upload("demo", "snapshot", &id, text.as_bytes()).unwrap();
        check_canonical(&snapshot, text.as_bytes()).unwrap();
        self.snapshots.insert(id.clone(), snapshot);
        id
    }

    fn heads(&self, project: &str, change: &str) -> Result<Vec<String>, Error> {
        let heads = self.ledgers.get(project).and_then(|ledger| ledger.heads.get(change));
        Ok(change_info(change, heads.map(TextSet::to_vec).unwrap_or_default())?.heads)
    }

    fn publish(&mut self, project: &str, change: &str, publication: Publication) -> Result<PublicationReceipt, Error> {
        publication.validate(project, change)?;
        let mut ledger = self.ledgers.remove(project).unwrap_or_else(Ledger::new);
        let result = self.publish_to(&mut ledger, project, &publication);
        self.ledgers.insert(project.to_owned(), ledger);
        result
    }

    fn publish_to(
        &self,
        ledger: &mut Ledger,
        project: &str,
        publication: &Publication,
    ) -> Result<PublicationReceipt, Error> {
        if let Some(receipt) = ledger.recorded(publication)? {
            return Ok(receipt);
        }
        for id in [&publication.revision.base_snapshot, &publication.revision.result_snapshot] {
            self.object(project, "snapshot", id)?;
        }
        ledger.publish(publication)
    }
}

#[test]
fn publications_retain_divergence_and_survive_retries_and_restart() {
    let mut db = Server::default();
    let base = db.snapshot(b"base");
    let revision = Revision {
        project: "demo".into(),
        change: "change-1".into(),
        predecessor: None,
        base_snapshot: base.clone(),
        result_snapshot: db.snapshot(b"first"),
        message: "First attempt".into(),
    };
    let first = |request: &str| Publication { request_id: request.into(), revision: revision.clone() };
    let receipt = db.publish("demo", "change-1", first("request-1")).unwrap();
    let second = Revision {
        predecessor: Some(receipt.revision.clone()),
        result_snapshot: db.snapshot(b"second"),
        ..revision.clone()
    };
    let next = |request: &str| Publication { request_id: request.into(), revision: second.clone() };
    let next_receipt = db.publish("demo", "change-1", next("request-2")).unwrap();
    assert_eq!(db.publish("demo", "change-1", first("request-1")).unwrap(), receipt);
    assert_eq!(db.heads("demo", "change-1").unwrap(), std::slice::from_ref(&next_receipt.revision));
    // Even a replay with a new request ID must not resurrect an old head.
    db.publish("demo", "change-1", first("replay")).unwrap();
    assert_eq!(db.heads("demo", "change-1").unwrap(), std::slice::from_ref(&next_receipt.revision));
    let fork = Publication {
        request_id: "request-3".into(),
        revision: Revision { result_snapshot: db.snapshot(b"parallel"), ..second.clone() },
    };
    let fork_receipt = db.publish("demo", "change-1", fork).unwrap();
    assert_eq!(fork_receipt.heads.len(), 2);
    assert!(fork_receipt.heads.contains(&next_receipt.revision));
    assert!(db.publish("demo", "change-1", next("request-1")).is_err());
    assert_eq!(db.heads("demo", "change-1").unwrap(), fork_receipt.heads);
}

#[test]
fn incomplete_or_cross_project_publications_never_become_visible() {
    let mut db = Server::default();
    let base = db.snapshot(b"base");
    let revision = Revision {
        project: "demo".into(),
        change: "c".into(),
        predecessor: None,
        base_snapshot: base.clone(),
        result_snapshot: object_id("snapshot", b"missing"),
        message: "Missing contents".into(),
    };
    assert!(db.publish("demo", "c", Publication { request_id: "req".into(), revision }).is_err());
    assert!(db.heads("demo", "c").is_err());
    assert!(db.ledgers["demo"].heads.is_empty());
    assert!(db.object("other", "snapshot", &base).is_err());
    assert!(db.upload("demo", "blob", &object_id("blob", b"good"), b"bad").is_err());
}

#[test]
fn uploads_are_checked() {
    let problem = |kind: &str, id: &str, bytes: &[u8]| check_upload(kind, id, bytes).unwrap_err().problem;
    let id = object_id("blob", b"good");
    assert!(check_upload("blob", &id, b"good").is_ok());
    assert_eq!(problem("blob", "x", b"good"), Problem::InvalidObjectId);
    assert_eq!(problem("revision", &id, b"good"), Problem::UnsupportedUpload);
    assert_eq!(problem("blob", &id, b"bad"), Problem::ObjectIdMismatch);
    let large = vec![b' '; 2 * 1024 * 1024 + 1];
    assert_eq!(problem("snapshot", &object_id("snapshot", &large), &large), Problem::SnapshotTooLarge);
    assert_eq!(
        check_canonical(&Snapshot::default(), b"{ \"files\":{}}").unwrap_err().problem,
        Problem::NoncanonicalSnapshot
    );
    assert_eq!(check_object_request("pin", &id).unwrap_err().problem, Problem::UnknownObjectKind);
    assert!(check_object_request("revision", &id).is_ok());
    assert_eq!(check_publication_length(2 * 1024 * 1024 + 1).unwrap_err().problem, Problem::PublicationTooLarge);
}

#[test]
fn revisions_follow_their_change() {
    let id = object_id("snapshot", b"{\"files\":{}}");
    let revision = Revision {
        project: "demo".into(),
        change: "c".into(),
        predecessor: None,
        base_snapshot: id.clone(),
        result_snapshot: id.clone(),
        message: "First".into(),
    };
    assert!(revision.validate_succession(None, false, false).is_ok());
    assert!(revision.validate_succession(None, true, true).is_ok());
    assert_eq!(
        revision.validate_succession(None, true, false).unwrap_err().problem,
        Problem::PredecessorRequired
    );
    let next = Revision { predecessor: Some(revision.id().unwrap()), ..revision.clone() };
    assert!(next.validate_succession(Some(&revision), true, false).is_ok());
    let foreign = Revision { change: "other".into(), ..revision.clone() };
    assert_eq!(
        next.validate_succession(Some(&foreign), true, false).unwrap_err().problem,
        Problem::ForeignPredecessor
    );
    let publication = Publication { request_id: "r".into(), revision: revision.clone() };
    let text = format!("{{\"request_id\":\"r\",\"revision\":{}}}", revision.to_json());
    assert_eq!(publication.digest(), object_id("publication", text.as_bytes()));
    assert_eq!(publication.validate("demo", "d").unwrap_err().problem, Problem::ForeignRevision);
    assert_eq!(is_replay(Some("a"), "b").unwrap_err().problem, Problem::RequestReused);
    assert_eq!(change_info("c", vec![]).unwrap_err().message(), "change c does not exist");
}

#[test]
fn requests_are_answered_as_they_were_first() {
    let id = object_id("snapshot", b"{\"files\":{}}");
    let revision = Revision {
        project: "demo".into(),
        change: "c".into(),
        predecessor: None,
        base_snapshot: id.clone(),
        result_snapshot: id.clone(),
        message: "First".into(),
    };
    let mut ledger = Ledger::new();
    let first = Publication { request_id: "one".into(), revision: revision.clone() };
    assert!(ledger.recorded(&first).unwrap().is_none());
    let answer = ledger.publish(&first).unwrap();
    assert_eq!(answer.revision, revision.id().unwrap());
    assert_eq!(answer.heads, [answer.revision.clone()]);
    let next = Revision { predecessor: Some(answer.revision.clone()), message: "Next".into(), ..revision.clone() };
    let second = ledger.publish(&Publication { request_id: "two".into(), revision: next.clone() }).unwrap();
    assert_eq!(second.heads, [second.revision.clone()]);
    // The first answer stands, though other revisions are current now.
    assert_eq!(ledger.publish(&first).unwrap(), answer);
    assert_eq!(ledger.recorded(&first).unwrap(), Some(answer.clone()));
    assert_eq!(ledger.heads.get("c").unwrap().to_vec(), [second.revision.clone()]);
    let reused = Publication { request_id: "one".into(), revision: next.clone() };
    assert_eq!(ledger.publish(&reused).unwrap_err().problem, Problem::RequestReused);
    assert_eq!((ledger.requests.len(), ledger.revisions.len(), ledger.listed.len()), (2, 2, 2));
    let lost = Revision { predecessor: Some(object_id("revision", b"")), ..next.clone() };
    let error = ledger.publish(&Publication { request_id: "three".into(), revision: lost.clone() }).unwrap_err();
    assert_eq!(error.message(), format!("missing revision object {}", lost.predecessor.unwrap()));
    let again = Revision { message: "Begun again".into(), ..revision.clone() };
    let error = ledger.publish(&Publication { request_id: "three".into(), revision: again }).unwrap_err();
    assert_eq!(error.problem, Problem::PredecessorRequired);
    assert_eq!(ledger.requests.len(), 2);
    let (mut heads, fork) = (TextSet::default(), object_id("revision", b"fork"));
    heads.insert(answer.revision.clone());
    let heads = next_heads(heads, true, Some(&answer.revision), &fork);
    assert_eq!(receipt(&first, fork.clone(), &heads).heads, [fork]);
}
