use vote_server::catalog::{init_elections, is_election_file, Election};
use vote_server::command::Command;
use vote_server::error::VoteError;

fn election(id: u32, name: &str) -> Election {
    Election { id, name: String::from(name), definition: format!("{{\"id\":{},\"name\":\"{}\"}}", id, name) }
}

#[test]
fn lookup_of_unregistered_id_is_not_found() {
    let catalog = init_elections(vec![election(1, "one"), election(2, "two")]);
    assert_eq!(catalog.lookup(3).err(), Some(VoteError::NotFound));
    let empty = init_elections(vec![]);
    assert_eq!(empty.lookup(0).err(), Some(VoteError::NotFound));
}

#[test]
fn lookup_of_registered_id_returns_loaded_election() {
    let catalog = init_elections(vec![election(1, "one"), election(2, "two")]);
    let e = catalog.lookup(2).unwrap();
    assert_eq!(e.id, 2);
    assert_eq!(e.name, "two");
    assert_eq!(e.definition, "{\"id\":2,\"name\":\"two\"}");
}

#[test]
fn later_definition_with_same_id_replaces_earlier() {
    let catalog = init_elections(vec![election(5, "old"), election(6, "other"), election(5, "new")]);
    assert_eq!(catalog.lookup(5).unwrap().name, "new");
    assert_eq!(catalog.lookup(6).unwrap().name, "other");
}

#[test]
fn election_files_end_with_vote() {
    assert!(is_election_file("nsm.vote"));
    assert!(is_election_file(".vote"));
    assert!(!is_election_file("vote"));
    assert!(!is_election_file("nsm.vote.bak"));
    assert!(!is_election_file("nsm.Vote"));
    assert!(!is_election_file(""));
}

#[test]
fn commands_on_reference_data() {
    assert!(!Command::StartServer.uses_reference_data());
    assert!(!Command::Validate { id: 1, filename: String::from("b.hex") }.uses_reference_data());
    assert!(Command::CreateRefDatabase.uses_reference_data());
    assert!(Command::CreateElection { template_filename: String::from("t"), election_filename: String::from("e") }.uses_reference_data());
}
