use language_model::{CompletionPosition, CursorPosition, Location, Semantics};

const CURSOR_SYMBOL: &str = "<|>";

fn parse_cursor_position(script_containing_cursor: &str) -> (String, Location) {
    let location = script_containing_cursor
        .lines()
        .enumerate()
        .find_map(|(line, line_text)| {
            let column = line_text.find(CURSOR_SYMBOL)?;
            Some(Location { line, column })
        })
        .expect("script should contain cursor");

    let script_without_cursor = script_containing_cursor.replacen(CURSOR_SYMBOL, "", 1);

    if script_without_cursor.contains(CURSOR_SYMBOL) {
        panic!("script should only contain single cursor");
    }

    (script_without_cursor, location)
}

fn semantics_with(root: &str, files: &[(&str, &str)]) -> Semantics {
    let mut semantics = Semantics::new(root.to_owned());
    for (path, text) in files {
        semantics.set_file_text(path.to_string(), text.to_string());
    }
    semantics
}

#[test]
#[should_panic]
fn panics_on_missing_cursor() {
    parse_cursor_position("no cursor");
}

#[test]
#[should_panic]
fn panics_on_more_than_one_cursor() {
    parse_cursor_position("<|> <|>");
}

#[test]
fn test_support_empty_script() {
    let (script, cursor_location) = parse_cursor_position("<|>");

    assert_eq!("", script);
    assert_eq!(Location { line: 0, column: 0 }, cursor_location);
}

#[test]
fn end_of_first_line() {
    let (script, cursor_location) = parse_cursor_position("foo <|>");

    assert_eq!("foo ", script);
    assert_eq!(Location { line: 0, column: 4 }, cursor_location);
}

#[test]
fn middle_of_first_line() {
    let (script, cursor_location) = parse_cursor_position("foo <|>bar");

    assert_eq!("foo bar", script);
    assert_eq!(Location { line: 0, column: 4 }, cursor_location);
}

#[test]
fn last_line() {
    let (script, cursor_location) = parse_cursor_position("foo\n<|>bar");

    assert_eq!("foo\nbar", script);
    assert_eq!(Location { line: 1, column: 0 }, cursor_location);
}

#[test]
fn middle_line() {
    let (script, cursor_location) = parse_cursor_position("foo\n<|>bar\nbaz");

    assert_eq!("foo\nbar\nbaz", script);
    assert_eq!(Location { line: 1, column: 0 }, cursor_location);
}

#[test]
fn completions_empty_script() {
    let (script, location) = parse_cursor_position("<|>");
    let completion_position =
        CompletionPosition::new(&script, location).expect("should resolve completion position");

    assert_eq!(CompletionPosition::Command, completion_position);
}

#[test]
fn if_cursor_on_command_it_is_not_included() {
    let (script, location) = parse_cursor_position("def<|>");
    let completion_position =
        CompletionPosition::new(&script, location).expect("should resolve completion position");

    assert_eq!(CompletionPosition::Command, completion_position);
}

#[test]
fn first_and_only_arg() {
    let (script, location) = parse_cursor_position("define <|>");
    let completion_position_arg = CompletionPosition::new(&script, location)
        .expect("should resolve completion position")
        .into_arg()
        .expect("should resolve as arg");

    assert_eq!("define", completion_position_arg.command);
    assert!(completion_position_arg.leading_args.is_empty());
}

#[test]
fn last_arg() {
    let (script, location) = parse_cursor_position("set max-completions <|>");
    let completion_position_arg = CompletionPosition::new(&script, location)
        .expect("should resolve completion position")
        .into_arg()
        .expect("should resolve as arg");

    assert_eq!("set", completion_position_arg.command);
    assert_eq!(vec!["max-completions"], completion_position_arg.leading_args);
}

#[test]
fn middle_arg() {
    let (script, location) = parse_cursor_position("set <|> max-completions");
    let completion_position_arg = CompletionPosition::new(&script, location)
        .expect("should resolve completion position")
        .into_arg()
        .expect("should resolve as arg");

    assert_eq!("set", completion_position_arg.command);
    assert!(completion_position_arg.leading_args.is_empty());
}

#[test]
fn if_cursor_on_arg_it_is_not_included() {
    let (script, location) = parse_cursor_position("set max-completions<|>");
    let completion_position_arg = CompletionPosition::new(&script, location)
        .expect("should resolve completion position")
        .into_arg()
        .expect("should resolve as arg");

    assert_eq!("set", completion_position_arg.command);
    assert!(completion_position_arg.leading_args.is_empty());
}

#[test]
fn completion_position_beyond_last_line_is_none() {
    let location = Location { line: 3, column: 0 };
    assert!(CompletionPosition::new("foo\n", location).is_none());
}

#[test]
fn completion_position_keeps_arguments_in_order() {
    let (script, location) = parse_cursor_position("set a b c <|>");
    let arg = CompletionPosition::new(&script, location)
        .expect("should resolve completion position")
        .into_arg()
        .expect("should resolve as arg");

    assert_eq!("set", arg.command);
    assert_eq!(vec!["a", "b", "c"], arg.leading_args);
}

#[test]
fn find_definition_simple() {
    let script = r#"
define say_hi
    echo hi
end

<|>say_hi
        "#;
    let (script, location) = parse_cursor_position(script);
    let script_path = String::from("foo.gdb");

    let semantics = {
        let fake_cwd = String::new();
        let mut semantics = Semantics::new(fake_cwd);
        semantics.set_file_text(script_path.clone(), script);

        semantics
    };

    let item_position = CursorPosition {
        file: &script_path,
        line: location.line,
        column: location.column,
    };

    let definition = semantics
        .find_definition(item_position)
        .expect("should find definition");

    assert_eq!(script_path, definition.file);
    assert_eq!(1, definition.line);
    assert_eq!(7, definition.column);
}

#[test]
fn find_definition_returns_none_if_def_is_after_identifier() {
    let script = r#"
<|>say_hi

define say_hi
    echo hi
end
        "#;
    let (script, location) = parse_cursor_position(script);
    let script_path = String::from("foo.gdb");

    let semantics = {
        let fake_cwd = String::new();
        let mut semantics = Semantics::new(fake_cwd);
        semantics.set_file_text(script_path.clone(), script);

        semantics
    };

    let item_position = CursorPosition {
        file: &script_path,
        line: location.line,
        column: location.column,
    };

    let definition = semantics.find_definition(item_position);

    assert!(definition.is_none());
}

#[test]
fn find_definition_returns_most_recent_definition() {
    let script = r#"
define say_hi
    echo hi
end

define say_hi
    echo hi!!!
end

<|>say_hi
        "#;
    let (script, location) = parse_cursor_position(script);
    let script_path = String::from("foo.gdb");

    let semantics = {
        let fake_cwd = String::new();
        let mut semantics = Semantics::new(fake_cwd);
        semantics.set_file_text(script_path.clone(), script);

        semantics
    };

    let item_position = CursorPosition {
        file: &script_path,
        line: location.line,
        column: location.column,
    };

    let definition = semantics
        .find_definition(item_position)
        .expect("should find definition");

    assert_eq!(script_path, definition.file);
    assert_eq!(5, definition.line);
    assert_eq!(7, definition.column);
}

#[test]
fn find_definition_from_other_file() {
    let script_1 = r#"
source hello.gdb

<|>say_hi
        "#;
    let (script_1, location) = parse_cursor_position(script_1);
    let script_1_path = String::from("/home/user/foo.gdb");
    let script_2 = r#"
define say_hi
    echo hi
end
        "#;
    let script_2_path = String::from("/home/user/hello.gdb");

    let semantics = {
        let fake_cwd = String::from("/home/user");
        let mut semantics = Semantics::new(fake_cwd);
        let unresolved_imports = semantics.set_file_text(script_1_path.clone(), script_1);
        assert_eq!(1, unresolved_imports.len());
        assert_eq!(&script_2_path, unresolved_imports.get(0).unwrap());

        semantics.set_file_text(script_2_path.clone(), script_2.to_owned());

        semantics
    };

    let item_position = CursorPosition {
        file: &script_1_path,
        line: location.line,
        column: location.column,
    };

    let definition = semantics
        .find_definition(item_position)
        .expect("should find definition");

    assert_eq!(script_2_path, definition.file);
    assert_eq!(1, definition.line);
    assert_eq!(7, definition.column);
}

#[test]
fn set_file_text_requests_unresolved_imports() {
    let script_1 = r#"source bar.gdb"#;
    let script_1_path = String::from("foo.gdb");

    let script_2 = r#"echo hi from bar"#;
    let script_2_path = String::from("bar.gdb");

    let script_3 = r#"source bar.gdb"#;
    let script_3_path = String::from("baz.gdb");

    let mut semantics = {
        let fake_cwd = String::new();
        let semantics = Semantics::new(fake_cwd);

        semantics
    };

    let unresolved_imports = semantics.set_file_text(script_1_path.clone(), script_1.to_owned());
    assert_eq!(1, unresolved_imports.len());
    assert_eq!(&script_2_path, unresolved_imports.get(0).unwrap());

    let unresolved_imports = semantics.set_file_text(script_2_path.clone(), script_2.to_owned());
    assert!(unresolved_imports.is_empty());

    let unresolved_imports = semantics.set_file_text(script_3_path.clone(), script_3.to_owned());
    assert!(unresolved_imports.is_empty());
}

#[test]
fn completions_user_provided_empty_script() {
    let (script, location) = parse_cursor_position("<|>");
    let script_path = String::from("foo.gdb");
    let semantics = semantics_with("", &[("foo.gdb", &script)]);
    let cursor_position = CursorPosition {
        file: &script_path,
        line: location.line,
        column: location.column,
    };

    let completions = semantics.find_completions(cursor_position);

    let user_provided = completions
        .user_provided
        .into_iter()
        .map(|completion| completion.text)
        .collect::<Vec<String>>()
        .join("\n");
    assert_eq!("", user_provided);
}

#[test]
fn completions_built_in_in_command_slot() {
    let (script, location) = parse_cursor_position("<|>");
    let script_path = String::from("foo.gdb");
    let semantics = semantics_with("", &[("foo.gdb", &script)]);
    let cursor_position = CursorPosition {
        file: &script_path,
        line: location.line,
        column: location.column,
    };

    let completions = semantics.find_completions(cursor_position);

    let built_in: Vec<String> = completions.built_in.into_iter().map(|c| c.text).collect();
    assert_eq!(vec!["define", "if", "else", "end"], built_in);
    assert!(completions.user_provided.is_empty());
}

#[test]
fn completions_in_argument_slot_are_empty() {
    let (script, location) = parse_cursor_position("define <|>");
    let script_path = String::from("foo.gdb");
    let semantics = semantics_with("", &[("foo.gdb", &script)]);
    let cursor_position = CursorPosition {
        file: &script_path,
        line: location.line,
        column: location.column,
    };

    let completions = semantics.find_completions(cursor_position);

    assert!(completions.built_in.is_empty());
    assert!(completions.user_provided.is_empty());
}

#[test]
fn completions_in_unknown_script_are_empty() {
    let semantics = semantics_with("", &[]);
    let cursor_position = CursorPosition { file: "missing.gdb", line: 0, column: 0 };

    let completions = semantics.find_completions(cursor_position);

    assert!(completions.built_in.is_empty());
    assert!(completions.user_provided.is_empty());
}

#[test]
fn find_definition_twice_gives_the_same_answer() {
    let (script, location) = parse_cursor_position("define f\nend\n<|>f\n");
    let script_path = String::from("foo.gdb");
    let semantics = semantics_with("", &[("foo.gdb", &script)]);
    let position = CursorPosition {
        file: &script_path,
        line: location.line,
        column: location.column,
    };

    let first = semantics.find_definition(position).expect("should find definition");
    let second = semantics.find_definition(position).expect("should find definition");

    assert_eq!((first.file, first.line, first.column), (second.file, second.line, second.column));
    assert_eq!((0, 7), (first.line, first.column));
}

#[test]
fn find_definition_in_unknown_script_is_none() {
    let semantics = semantics_with("", &[]);
    let position = CursorPosition { file: "missing.gdb", line: 0, column: 0 };

    assert!(semantics.find_definition(position).is_none());
}

#[test]
fn find_definition_without_token_under_cursor_is_none() {
    let (script, location) = parse_cursor_position("define f\nend\nf <|>\n");
    let script_path = String::from("foo.gdb");
    let semantics = semantics_with("", &[("foo.gdb", &script)]);
    let position = CursorPosition {
        file: &script_path,
        line: location.line,
        column: location.column,
    };

    assert!(semantics.find_definition(position).is_none());
}

#[test]
fn find_definition_inside_a_token() {
    let (script, location) = parse_cursor_position("define greet\nend\ngr<|>eet\n");
    let script_path = String::from("foo.gdb");
    let semantics = semantics_with("", &[("foo.gdb", &script)]);
    let position = CursorPosition {
        file: &script_path,
        line: location.line,
        column: location.column,
    };

    let definition = semantics.find_definition(position).expect("should find definition");
    assert_eq!((0, 7), (definition.line, definition.column));
}

#[test]
fn find_definition_finds_nested_definition() {
    let script = "define outer\n    define inner\n    end\nend\n<|>inner\n";
    let (script, location) = parse_cursor_position(script);
    let script_path = String::from("foo.gdb");
    let semantics = semantics_with("", &[("foo.gdb", &script)]);
    let position = CursorPosition {
        file: &script_path,
        line: location.line,
        column: location.column,
    };

    let definition = semantics.find_definition(position).expect("should find definition");
    assert_eq!((1, 11), (definition.line, definition.column));
}

#[test]
fn same_script_definition_wins_over_included_one() {
    let (script_1, location) = parse_cursor_position("define f\nend\nsource b.gdb\n<|>f\n");
    let semantics = semantics_with(
        "/p",
        &[("/p/a.gdb", &script_1), ("/p/b.gdb", "define f\nend\n")],
    );
    let position = CursorPosition { file: "/p/a.gdb", line: location.line, column: location.column };

    let definition = semantics.find_definition(position).expect("should find definition");
    assert_eq!("/p/a.gdb", definition.file);
    assert_eq!((0, 7), (definition.line, definition.column));
}

#[test]
fn last_inclusion_is_searched_first() {
    let (script_1, location) = parse_cursor_position("source b.gdb\nsource c.gdb\n<|>f\n");
    let semantics = semantics_with(
        "/p",
        &[
            ("/p/a.gdb", &script_1),
            ("/p/b.gdb", "define f\nend\n"),
            ("/p/c.gdb", "\n\ndefine f\nend\n"),
        ],
    );
    let position = CursorPosition { file: "/p/a.gdb", line: location.line, column: location.column };

    let definition = semantics.find_definition(position).expect("should find definition");
    assert_eq!("/p/c.gdb", definition.file);
    assert_eq!((2, 7), (definition.line, definition.column));
}

#[test]
fn included_script_definition_after_its_use_line_is_found() {
    let (script_1, location) = parse_cursor_position("source b.gdb\n<|>f\n");
    let semantics = semantics_with(
        "/p",
        &[("/p/a.gdb", &script_1), ("/p/b.gdb", "\n\n\n\n\ndefine f\nend\n")],
    );
    let position = CursorPosition { file: "/p/a.gdb", line: location.line, column: location.column };

    let definition = semantics.find_definition(position).expect("should find definition");
    assert_eq!("/p/b.gdb", definition.file);
    assert_eq!((5, 7), (definition.line, definition.column));
}

#[test]
fn cyclic_inclusions_end() {
    let (script_1, location) = parse_cursor_position("source b.gdb\n<|>f\n");
    let semantics = semantics_with(
        "/p",
        &[("/p/a.gdb", &script_1), ("/p/b.gdb", "source a.gdb\n")],
    );
    let position = CursorPosition { file: "/p/a.gdb", line: location.line, column: location.column };

    assert!(semantics.find_definition(position).is_none());
}

#[test]
fn absolute_source_path_is_kept() {
    let mut semantics = Semantics::new(String::from("/p"));
    let unresolved = semantics.set_file_text(String::from("/p/a.gdb"), String::from("source /q/b.gdb\n"));
    assert_eq!(vec![String::from("/q/b.gdb")], unresolved);
}

#[test]
fn relative_source_path_joins_root_with_trailing_slash() {
    let mut semantics = Semantics::new(String::from("/p/"));
    let unresolved = semantics.set_file_text(String::from("/p/a.gdb"), String::from("source b.gdb\n"));
    assert_eq!(vec![String::from("/p/b.gdb")], unresolved);
}

#[test]
fn relative_source_path_joins_root() {
    let mut semantics = Semantics::new(String::from("/home/user"));
    let unresolved = semantics.set_file_text(String::from("/home/user/a.gdb"), String::from("source lib/b.gdb\n"));
    assert_eq!(vec![String::from("/home/user/lib/b.gdb")], unresolved);
}

#[test]
fn unresolved_paths_are_listed_once_in_order() {
    let mut semantics = Semantics::new(String::from("/p"));
    let text = "source b.gdb\nsource c.gdb\nsource b.gdb\ndefine f\n    source d.gdb\nend\n";
    let unresolved = semantics.set_file_text(String::from("/p/a.gdb"), String::from(text));
    assert_eq!(
        vec![String::from("/p/b.gdb"), String::from("/p/c.gdb"), String::from("/p/d.gdb")],
        unresolved
    );
}

#[test]
fn resubmitting_a_script_replaces_its_text() {
    let mut semantics = Semantics::new(String::from("/p"));
    semantics.set_file_text(String::from("/p/a.gdb"), String::from("define f\nend\nf\n"));
    semantics.set_file_text(String::from("/p/a.gdb"), String::from("\ndefine f\nend\nf\n"));
    let position = CursorPosition { file: "/p/a.gdb", line: 3, column: 0 };

    let definition = semantics.find_definition(position).expect("should find definition");
    assert_eq!((1, 7), (definition.line, definition.column));
}

#[test]
fn source_without_path_asks_for_nothing() {
    let mut semantics = Semantics::new(String::from("/p"));
    let unresolved = semantics.set_file_text(String::from("/p/a.gdb"), String::from("source\n"));
    assert!(unresolved.is_empty());
}

#[test]
fn later_redefinition_does_not_hide_earlier_one() {
    let script = "define f\nend\n<|>f\ndefine f\nend\n";
    let (script, location) = parse_cursor_position(script);
    let semantics = semantics_with("", &[("foo.gdb", &script)]);
    let position = CursorPosition { file: "foo.gdb", line: location.line, column: location.column };

    let definition = semantics.find_definition(position).expect("should find definition");
    assert_eq!((0, 7), (definition.line, definition.column));
}

#[test]
fn usage_on_the_define_line_is_not_a_definition_before_it() {
    let (script, location) = parse_cursor_position("define <|>f\nend\n");
    let semantics = semantics_with("", &[("foo.gdb", &script)]);
    let position = CursorPosition { file: "foo.gdb", line: location.line, column: location.column };

    assert!(semantics.find_definition(position).is_none());
}

#[test]
fn tokens_after_a_continuation_count_before_the_cursor() {
    let script = "abcdefgh \\\n x\n";
    let arg = CompletionPosition::new(script, Location { line: 0, column: 3 })
        .expect("should resolve completion position")
        .into_arg()
        .expect("should resolve as arg");
    assert_eq!("x", arg.command);
    assert!(arg.leading_args.is_empty());

    let semantics = semantics_with("", &[("foo.gdb", script)]);
    let completions =
        semantics.find_completions(CursorPosition { file: "foo.gdb", line: 0, column: 3 });
    assert!(completions.built_in.is_empty());
}

#[test]
fn cursor_on_a_continued_line_uses_its_logical_line() {
    let script = "set \\\n  a \n";
    let arg = CompletionPosition::new(script, Location { line: 1, column: 4 })
        .expect("should resolve completion position")
        .into_arg()
        .expect("should resolve as arg");
    assert_eq!("set", arg.command);
    assert_eq!(vec!["a"], arg.leading_args);
}

#[test]
fn path_spellings_with_the_same_components_are_one_file() {
    let mut semantics = Semantics::new(String::from("/p"));
    semantics.set_file_text(String::from("/p/b.gdb"), String::from("define f\nend\n"));
    let unresolved = semantics.set_file_text(
        String::from("/p/a.gdb"),
        String::from("source ./b.gdb\nsource /p//b.gdb/\nsource c.gdb\nsource ./c.gdb\nf\n"),
    );
    assert_eq!(vec![String::from("/p/c.gdb")], unresolved);

    let definition = semantics
        .find_definition(CursorPosition { file: "/p/./a.gdb", line: 4, column: 0 })
        .expect("should find definition");
    assert_eq!("/p/b.gdb", definition.file);
    assert_eq!((0, 7), (definition.line, definition.column));
}

#[test]
fn resubmitting_under_another_spelling_keeps_the_first_path() {
    let mut semantics = Semantics::new(String::from("/p"));
    semantics.set_file_text(String::from("/p/a.gdb"), String::from("\n"));
    semantics.set_file_text(String::from("/p//a.gdb"), String::from("define f\nend\nf\n"));
    let definition = semantics
        .find_definition(CursorPosition { file: "/p/a.gdb", line: 2, column: 0 })
        .expect("should find definition");
    assert_eq!("/p/a.gdb", definition.file);
}

#[test]
fn leading_dot_of_a_relative_path_is_kept() {
    let mut semantics = Semantics::new(String::new());
    semantics.set_file_text(String::from("b.gdb"), String::from("\n"));
    let unresolved = semantics.set_file_text(String::from("a.gdb"), String::from("source ./b.gdb\n"));
    assert_eq!(vec![String::from("./b.gdb")], unresolved);
}
