use mpd_protocol::command::Command;
use mpd_protocol::command::CommandError;
use mpd_protocol::command::CommandList;
use mpd_protocol::command::InvalidCommandReason;

fn refused(reason: InvalidCommandReason) -> Result<Command, CommandError> {
    Err(CommandError {
        reason,
        list_at: None,
    })
}

#[test]
fn single_command_renders_with_newline() {
    assert_eq!(Command::new("status").render(), "status\n");
    assert_eq!(Command::build("status").unwrap().render(), "status\n");
}

#[test]
fn name_is_lowercased_and_arguments_are_kept() {
    assert_eq!(Command::build("STATUS").unwrap().render(), "status\n");
    assert_eq!(Command::build("Play_Id ABC Def").unwrap().render(), "play_id ABC Def\n");
    assert_eq!(Command::build("find\tArtist").unwrap().text(), "find\tArtist");
    assert_eq!(Command::build("\u{c4}bc X").unwrap().text(), "\u{c4}bc X");
}

#[test]
fn empty_command_is_refused() {
    assert_eq!(Command::build(""), refused(InvalidCommandReason::Empty));
}

#[test]
fn outer_whitespace_is_refused() {
    assert_eq!(
        Command::build(" status"),
        refused(InvalidCommandReason::UnnecessaryWhitespace)
    );
    assert_eq!(
        Command::build("status "),
        refused(InvalidCommandReason::UnnecessaryWhitespace)
    );
    assert_eq!(
        Command::build("status\n"),
        refused(InvalidCommandReason::UnnecessaryWhitespace)
    );
    assert_eq!(
        Command::build("\u{a0}status"),
        refused(InvalidCommandReason::UnnecessaryWhitespace)
    );
}

#[test]
fn invalid_characters_are_refused_with_their_byte_position() {
    assert_eq!(
        Command::build("invalid\ncommand"),
        refused(InvalidCommandReason::InvalidCharacter(7, '\n'))
    );
    assert_eq!(
        Command::build("play 1"),
        refused(InvalidCommandReason::InvalidCharacter(5, '1'))
    );
    assert_eq!(
        Command::build("\u{e4}\u{4e2d} a-b-c"),
        refused(InvalidCommandReason::InvalidCharacter(7, '-'))
    );
    assert_eq!(
        Command::build("a\"b\"c!"),
        refused(InvalidCommandReason::InvalidCharacter(1, '"'))
    );
}

#[test]
fn list_of_one_renders_bare() {
    let list = CommandList::new(Command::build("Status").unwrap());
    assert_eq!(list.len(), 1);
    assert_eq!(list.to_wire(), "status\n");
}

#[test]
fn list_of_several_renders_between_markers() {
    let mut list = CommandList::new(Command::build("status").unwrap());
    assert_eq!(list.add(Command::build("CurrentSong").unwrap()), Ok(()));
    assert_eq!(list.add(Command::build("stats").unwrap()), Ok(()));
    assert_eq!(list.len(), 3);
    assert_eq!(
        list.to_wire(),
        "command_list_ok_begin\nstatus\ncurrentsong\nstats\ncommand_list_end\n"
    );
}

#[test]
fn nested_lists_are_refused() {
    let mut list = CommandList::new(Command::build("status").unwrap());
    assert_eq!(
        list.add(Command::build("Command_List_Begin").unwrap()),
        Err(CommandError {
            reason: InvalidCommandReason::NestedCommandList,
            list_at: Some(1),
        })
    );
    assert_eq!(
        list.add(Command::build("command_list_ok_begin now").unwrap()),
        Err(CommandError {
            reason: InvalidCommandReason::NestedCommandList,
            list_at: Some(1),
        })
    );
    assert_eq!(list.len(), 1);
    assert_eq!(list.add(Command::build("command_list_end").unwrap()), Ok(()));
    assert_eq!(list.add(Command::build("command_list_beginx").unwrap()), Ok(()));
    assert_eq!(list.len(), 3);

    let mut opened = CommandList::new(Command::build("command_list_begin").unwrap());
    assert_eq!(opened.to_wire(), "command_list_begin\n");
    assert_eq!(
        opened.add(Command::build("status").unwrap()),
        Err(CommandError {
            reason: InvalidCommandReason::NestedCommandList,
            list_at: Some(0),
        })
    );
    assert_eq!(opened.len(), 1);
}

#[test]
fn opening_commands_are_recognised() {
    assert!(Command::build("command_list_begin").unwrap().opens_list());
    assert!(Command::build("COMMAND_LIST_OK_BEGIN").unwrap().opens_list());
    assert!(!Command::build("command_list_end").unwrap().opens_list());
    assert!(!Command::build("command_list").unwrap().opens_list());
    assert!(!Command::build("status command_list_begin").unwrap().opens_list());
}

#[test]
fn lists_are_built_from_texts() {
    let list = CommandList::build(&["Status", "currentsong"]).unwrap();
    assert_eq!(list.len(), 2);
    assert_eq!(
        list.to_wire(),
        "command_list_ok_begin\nstatus\ncurrentsong\ncommand_list_end\n"
    );
    assert_eq!(CommandList::build(&["STATUS"]).unwrap().to_wire(), "status\n");
    assert_eq!(
        CommandList::build(&["command_list_begin"]).unwrap().to_wire(),
        "command_list_begin\n"
    );
}

#[test]
fn building_a_list_names_the_refused_text() {
    assert_eq!(
        CommandList::build(&[]),
        Err(CommandError {
            reason: InvalidCommandReason::Empty,
            list_at: None,
        })
    );
    assert_eq!(
        CommandList::build(&["status", "", "x y"]),
        Err(CommandError {
            reason: InvalidCommandReason::Empty,
            list_at: Some(1),
        })
    );
    assert_eq!(
        CommandList::build(&["status", "stats", "a\nb"]),
        Err(CommandError {
            reason: InvalidCommandReason::InvalidCharacter(1, '\n'),
            list_at: Some(2),
        })
    );
    assert_eq!(
        CommandList::build(&["status", "Command_List_Ok_Begin", " x"]),
        Err(CommandError {
            reason: InvalidCommandReason::NestedCommandList,
            list_at: Some(1),
        })
    );
    assert_eq!(
        CommandList::build(&["command_list_begin", "status"]),
        Err(CommandError {
            reason: InvalidCommandReason::NestedCommandList,
            list_at: Some(0),
        })
    );
}

#[test]
fn command_errors_in_words() {
    let mut e = CommandError {
        reason: InvalidCommandReason::Empty,
        list_at: None,
    };
    assert_eq!(e.message(), "Command was empty");
    e.reason = InvalidCommandReason::UnnecessaryWhitespace;
    assert_eq!(e.message(), "Command contained leading or trailing whitespace");
    e.reason = InvalidCommandReason::NestedCommandList;
    e.list_at = Some(0);
    assert_eq!(
        e.message(),
        "Command attempted to open a command list while already in one (at command list index 0)"
    );
    e.reason = InvalidCommandReason::InvalidCharacter(1204, '\n');
    e.list_at = Some(37);
    assert_eq!(
        e.message(),
        "Command contained an invalid character: '\\n' at position 1204 (at command list index 37)"
    );
}

#[test]
fn rendered_lists_read_back_line_by_line() {
    let texts = ["Status", "find Artist\tX", "Stop"];
    let wire = CommandList::build(&texts).unwrap().to_wire();
    let lines: Vec<&str> = wire.split_terminator('\n').collect();
    assert_eq!(
        lines,
        vec![
            "command_list_ok_begin",
            "status",
            "find Artist\tX",
            "stop",
            "command_list_end"
        ]
    );
    assert!(wire.ends_with('\n'));

    let single = Command::build("LsInfo Some Dir").unwrap().render();
    let lines: Vec<&str> = single.split_terminator('\n').collect();
    assert_eq!(lines, vec!["lsinfo Some Dir"]);
}
