use advent::filesystem::{
    CdTarget, Command, CommandHistory, FileSystem, FileSystemEntry, FileSystemEntryKind, Solution,
};

#[test]
fn test_ls() {
    let input = r#"$ ls
dir a
18 filename
"#;

    let (input, command) = Command::parse(input).unwrap();

    assert_eq!(input, "");
    assert_eq!(
        command,
        Command::Ls {
            entries: vec![
                FileSystemEntry {
                    kind: FileSystemEntryKind::Directory,
                    name: "a".to_string()
                },
                FileSystemEntry {
                    kind: FileSystemEntryKind::File { size: 18 },
                    name: "filename".to_string()
                },
            ]
        }
    );
}

#[test]
fn test_cd() {
    // Newline is required after cd
    let input = r#"$ cd ..
"#;

    let (input, command) = Command::parse(input).unwrap();

    assert_eq!(input, "");
    assert_eq!(command, Command::Cd(CdTarget::Parent));
}

#[test]
fn test_commands() {
    let input = r#"$ cd /
$ ls
dir a
"#;

    let (input, history) = CommandHistory::parse(input).unwrap();

    assert_eq!(input, "");
    assert_eq!(
        history.commands,
        vec![
            Command::Cd(CdTarget::Root),
            Command::Ls {
                entries: vec![FileSystemEntry {
                    kind: FileSystemEntryKind::Directory,
                    name: "a".to_string()
                },]
            }
        ]
    );
}

#[test]
fn commands_stop_where_the_grammar_does() {
    let (rest, command) = Command::parse("$ cd a\n$ ls\n").unwrap();
    assert_eq!(rest, "$ ls\n");
    assert_eq!(command, Command::Cd(CdTarget::Child("a".to_string())));
    let (rest, command) = Command::parse("$ ls\n12 b.txt\nx\n").unwrap();
    assert_eq!(rest, "x\n");
    assert_eq!(
        command,
        Command::Ls { entries: vec![FileSystemEntry::new("b.txt", FileSystemEntryKind::File { size: 12 })] }
    );
    assert!(Command::parse("$cd a").is_err());
    assert!(Command::parse("ls").is_err());
    assert!(CommandHistory::parse("$ cd /\nnot a command\n").is_err());
    assert_eq!(CommandHistory::parse("").unwrap().1.commands, vec![]);
    // a size that does not fit ends the listing
    let (rest, command) = Command::parse("$ ls\n99999999999999999999999 big\n").unwrap();
    assert_eq!(rest, "99999999999999999999999 big\n");
    assert_eq!(command, Command::Ls { entries: vec![] });
}

const SESSION: &str = "$ cd /
$ ls
dir a
14848514 b.txt
8504156 c.dat
dir d
$ cd a
$ ls
dir e
29116 f
2557 g
62596 h.lst
$ cd e
$ ls
584 i
$ cd ..
$ cd ..
$ cd d
$ ls
4060174 j
8033020 d.log
5626152 d.ext
7214296 k
";

#[test]
fn folder_sizes_of_the_example() {
    let (_, history) = CommandHistory::parse(SESSION).unwrap();
    let fs = FileSystem::replay(&history).unwrap();
    assert!(fs.check_sizes());
    // folders are numbered as made: /, a, d, e
    assert_eq!(fs.folders(), vec![0, 1, 2, 3]);
    assert_eq!(fs.get_folder_size_recursive(0), 48381165);
    assert_eq!(fs.get_folder_size_recursive(1), 94853);
    assert_eq!(fs.get_folder_size_recursive(2), 24933642);
    assert_eq!(fs.get_folder_size_recursive(3), 584);
    assert_eq!(fs.get_folders_at_most(100_000), vec![1, 3]);
    assert_eq!(fs.get_smallest_folder_larger_than(8381165), 2);
    let sol = Solution::new(2022, 7);
    assert_eq!(sol.part1_solution(&fs), Some(95437));
    assert_eq!(sol.part2_solution(&fs), Some(24933642));
    assert_eq!((sol.get_year(), sol.get_day()), (2022, 7));
}

#[test]
fn replay_fails_on_missing_folders() {
    let (_, history) = CommandHistory::parse("$ cd /\n$ cd x\n").unwrap();
    assert!(FileSystem::replay(&history).is_none());
    let (_, history) = CommandHistory::parse("$ cd ..\n").unwrap();
    assert!(FileSystem::replay(&history).is_none());
    let (_, history) = CommandHistory::parse("$ ls\ndir x\n$ cd x\n$ cd ..\n$ cd x\n").unwrap();
    let fs = FileSystem::replay(&history).unwrap();
    let fs = fs.add_file("y", 5).add_directory("z");
    assert_eq!(fs.get_folder_size_recursive(0), 5);
    assert_eq!(fs.folders().len(), 3);
    let built = FileSystem::build_from_command_history(&history);
    assert_eq!(built.get_folder_size_recursive(1), 0);
    let fs = built.exec_command(&Command::Cd(CdTarget::Root));
    assert!(fs.can_exec(&Command::Cd(CdTarget::Child("x".to_string()))));
    assert!(!fs.can_exec(&Command::Cd(CdTarget::Parent)));
    assert_eq!(Solution::new(2022, 7).part2_solution(&fs), None);
}
