use batch_exec::invoker::template::Template;
use batch_exec::invoker::Invoker;

fn words(items: &[&str]) -> Vec<String> {
    items.iter().map(|s| s.to_string()).collect()
}

#[test]
fn invoker_new() {
    assert_eq!(
        Invoker::new("%", vec!["echo".to_string(), "%".to_string()]),
        Invoker {
            templates: vec![Template::Static("echo".to_string())],
            offsets: vec![1]
        },
        "basic 'echo %' case"
    );

    assert_eq!(
        Invoker::new("{}", vec!["echo".to_string(), "%".to_string()]),
        Invoker {
            templates: vec![
                Template::Static("echo".to_string()),
                Template::Static("%".to_string())
            ],
            offsets: vec![]
        },
        "'echo %' with '{{}}' pattern"
    );

    assert_eq!(
        Invoker::new("{}", vec!["echo".to_string(), "{}".to_string()]),
        Invoker {
            templates: vec![Template::Static("echo".to_string())],
            offsets: vec![1]
        },
        "'echo {{}}' with '{{}}' pattern"
    );
}

#[test]
fn fill() {
    let echo = Invoker::new("%", vec!["echo".to_string(), "%".to_string()]);

    assert_eq!(
        echo.fill(&["foo"]),
        vec!["echo", "foo"],
        "simple 1 to 1 pattern fill"
    );

    assert_eq!(
        echo.fill(&["foo", "bar"]),
        vec!["echo", "foo", "bar"],
        "simple overfill"
    );

    assert_eq!(echo.fill(&[]), vec!["echo"], "simple underfill");

    let cmd = Invoker::new(
        "%",
        vec![
            "cat".to_string(),
            "%".to_string(),
            "-E".to_string(),
            "%".to_string(),
        ],
    );

    assert_eq!(
        cmd.fill(&["hello", "world"]),
        vec!["cat", "hello", "-E", "world"],
        "multi slot simple fill"
    );

    assert_eq!(
        cmd.fill(&["hello"]),
        vec!["cat", "hello", "-E"],
        "multi slot underfill"
    );

    assert_eq!(
        cmd.fill(&["hello", "world", "foobar"]),
        vec!["cat", "hello", "-E", "world", "foobar"],
        "multi slot overfill"
    );

    assert_eq!(
        cmd.fill(&["hello", "world"]).capacity(),
        4,
        "multi slot simple fill capacity"
    );

    assert_eq!(
        cmd.fill(&["hello", "world", "foobar"]).capacity(),
        5,
        "multi slot overfill capacity"
    );

    // even though 3 elements should exist we want to
    // have a decent heuristic for initial capacity of
    // the result set.
    assert_eq!(
        cmd.fill(&["hello"]).capacity(),
        4,
        "multi slot underfill capacity"
    );
}

#[test]
fn test_new() {
    assert_eq!(
        Invoker::new("%", vec!["echo".to_string(), "%".to_string()]),
        Invoker {
            templates: vec![Template::Static("echo".to_string())],
            offsets: vec![1]
        },
        "basic 'echo %' case"
    );

    assert_eq!(
        Invoker::new("{}", vec!["echo".to_string(), "%".to_string()]),
        Invoker {
            templates: vec![
                Template::Static("echo".to_string()),
                Template::Static("%".to_string())
            ],
            offsets: vec![]
        },
        "'echo %' with '{{}}' pattern"
    );

    assert_eq!(
        Invoker::new("{}", vec!["echo".to_string(), "{}".to_string()]),
        Invoker {
            templates: vec![Template::Static("echo".to_string())],
            offsets: vec![1]
        },
        "'echo {{}}' with '{{}}' pattern"
    );
}

#[test]
fn previews() {
    let echo = Invoker::new("%", vec!["echo".to_string(), "%".to_string()]);

    assert_eq!(
        echo.preview(&["foo"]).as_strs(),
        vec!["echo", "foo"],
        "simple 1 to 1 pattern fill"
    );

    assert_eq!(
        echo.preview(&["foo", "bar"]).as_strs(),
        vec!["echo", "foo", "bar"],
        "simple overfill"
    );

    assert_eq!(
        echo.preview(&[]).as_strs(),
        vec!["echo"],
        "simple underfill"
    );

    let cmd = Invoker::new(
        "%",
        vec![
            "cat".to_string(),
            "%".to_string(),
            "-E".to_string(),
            "%".to_string(),
        ],
    );

    assert_eq!(
        cmd.preview(&["hello", "world"]).as_strs(),
        vec!["cat", "hello", "-E", "world"],
        "multi slot simple fill"
    );

    assert_eq!(
        cmd.preview(&["hello"]).as_strs(),
        vec!["cat", "hello", "-E"],
        "multi slot underfill"
    );

    assert_eq!(
        cmd.preview(&["hello", "world", "foobar"]).as_strs(),
        vec!["cat", "hello", "-E", "world", "foobar"],
        "multi slot overfill"
    );

    assert_eq!(
        cmd.preview(&["hello", "world"]).as_strs().capacity(),
        4,
        "multi slot simple fill capacity"
    );

    assert_eq!(
        cmd.preview(&["hello", "world", "foobar"])
            .as_strs()
            .capacity(),
        5,
        "multi slot overfill capacity"
    );

    // even though 3 elements should exist we want to
    // have a decent heuristic for initial capacity of
    // the result set.
    assert_eq!(
        cmd.preview(&["hello"]).as_strs().capacity(),
        4,
        "multi slot underfill capacity"
    );
}

#[test]
fn template_new() {
    assert_eq!(
        Template::new("%", "hello".to_string()),
        Template::Static("hello".to_string())
    );

    assert_eq!(
        Template::new("%", "of=%".to_string()),
        Template::Interp {
            offsets: vec![3],
            base: "of=".to_string(),
        }
    );

    assert_eq!(
        Template::new("%", "%=%".to_string()),
        Template::Interp {
            offsets: vec![0, 1],
            base: "=".to_string(),
        }
    );

    assert_eq!(
        Template::new("%", "%=%xyz".to_string()),
        Template::Interp {
            offsets: vec![0, 1],
            base: "=xyz".to_string(),
        }
    );
}

#[test]
fn template_apply() {
    let template = Template::new("%", "of=%".to_string());
    let params = vec!["/dev/null"];

    assert_eq!(template.apply(&params), "of=/dev/null".to_string());

    let template = Template::new("%", "%=%".to_string());
    let params = vec!["if", "/dev/null"];

    assert_eq!(template.apply(&params), "if=/dev/null".to_string());

    let template = Template::new("%", "%=%".to_string());
    let params = vec!["if"];

    assert_eq!(template.apply(&params), "if=".to_string());
}

#[test]
fn template_adjacent_and_edge_occurrences() {
    assert_eq!(
        Template::new("%", "%%".to_string()),
        Template::Interp {
            offsets: vec![0, 0],
            base: "".to_string(),
        }
    );
    assert_eq!(
        Template::new("%", "a%%b%".to_string()),
        Template::Interp {
            offsets: vec![1, 1, 2],
            base: "ab".to_string(),
        }
    );
    assert_eq!(
        Template::new("%", "a%%b%".to_string()).apply(&["1", "22", "333"]),
        "a122b333".to_string()
    );
    assert_eq!(
        Template::new("%", "%%".to_string()).apply(&["x", "y", "z"]),
        "xy".to_string()
    );
}

#[test]
fn template_longer_pattern_does_not_overlap() {
    assert_eq!(
        Template::new("aa", "aaa".to_string()),
        Template::Interp {
            offsets: vec![0],
            base: "a".to_string(),
        }
    );
    assert_eq!(
        Template::new("{}", "--in={} --out={}.bak".to_string()),
        Template::Interp {
            offsets: vec![5, 12],
            base: "--in= --out=.bak".to_string(),
        }
    );
    assert_eq!(
        Template::new("{}", "--in={} --out={}.bak".to_string()).apply(&["a", "b"]),
        "--in=a --out=b.bak".to_string()
    );
}

#[test]
fn template_offsets_count_bytes() {
    let t = Template::new("%", "caf\u{e9}=%;\u{20ac}%".to_string());
    assert_eq!(
        t,
        Template::Interp {
            offsets: vec![6, 10],
            base: "caf\u{e9}=;\u{20ac}".to_string(),
        }
    );
    assert_eq!(
        t.apply(&["\u{fc}ber", "x"]),
        "caf\u{e9}=\u{fc}ber;\u{20ac}x".to_string()
    );
    let wide = Template::new("\u{2192}", "a\u{2192}b".to_string());
    assert_eq!(
        wide,
        Template::Interp {
            offsets: vec![1],
            base: "ab".to_string(),
        }
    );
}

#[test]
fn template_apply_without_values_gives_base() {
    let t = Template::new("%", "x=%,y=%".to_string());
    assert_eq!(t.apply(&[]), "x=,y=".to_string());
    assert_eq!(t.slot_count(), 2);
    assert_eq!(t.apply_from(&["a", "b", "c"], 1), "x=b,y=c".to_string());
    assert_eq!(t.apply_from(&["a", "b", "c"], 3), "x=,y=".to_string());
    let s = Template::new("%", "plain".to_string());
    assert_eq!(s.apply(&["a"]), "plain".to_string());
    assert_eq!(s.slot_count(), 0);
}

#[test]
fn preview_echo_one_value() {
    let inv = Invoker::new("%", words(&["echo", "%"]));
    assert_eq!(inv.preview(&["foo"]).as_strs(), vec!["echo", "foo"]);
}

#[test]
fn preview_interpolated_word() {
    let inv = Invoker::new("%", words(&["dd", "of=%"]));
    assert_eq!(inv.preview(&["/dev/null"]).as_strs(), vec!["dd", "of=/dev/null"]);
}

#[test]
fn preview_interpolated_underfill() {
    let inv = Invoker::new("%", words(&["dd", "%=%"]));
    assert_eq!(inv.preview(&["if"]).as_strs(), vec!["dd", "if="]);
}

#[test]
fn slots_count_positions_and_marks() {
    assert_eq!(Invoker::new("%", words(&["echo", "%"])).slots(), 1);
    assert_eq!(Invoker::new("%", words(&["dd", "%=%", "%", "x%"])).slots(), 4);
    assert_eq!(Invoker::new("%", words(&["true"])).slots(), 0);
    assert_eq!(
        Invoker::new("%", words(&["dd", "%=%", "%", "x%"])).try_slots(),
        Some(4)
    );
}

#[test]
fn exact_fill_has_one_argument_per_word() {
    let inv = Invoker::new("%", words(&["cp", "%", "--to=%/%", "-v", "%"]));
    assert_eq!(inv.slots(), 4);
    let preview = inv.preview(&["a", "b", "c", "d"]);
    let out = preview.as_strs();
    assert_eq!(out, vec!["cp", "a", "--to=b/c", "-v", "d"]);
    assert_eq!(out.len(), 5);
}

#[test]
fn overfill_appends_the_extra_values() {
    let inv = Invoker::new("%", words(&["cp", "%", "--to=%/%", "-v", "%"]));
    let exact = inv.fill(&["a", "b", "c", "d"]);
    let over = inv.fill(&["a", "b", "c", "d", "e", "f"]);
    assert_eq!(over.len(), exact.len() + 2);
    assert_eq!(over[..exact.len()], exact[..]);
    assert_eq!(over[exact.len()..], vec!["e", "f"][..]);
}

#[test]
fn underfill_drops_slots_and_keeps_words() {
    let inv = Invoker::new("%", words(&["cp", "%", "--to=%/%", "-v", "%"]));
    assert_eq!(inv.fill(&[]), vec!["cp", "--to=/", "-v"]);
    assert_eq!(inv.fill(&["a"]), vec!["cp", "a", "--to=/", "-v"]);
    assert_eq!(inv.fill(&["a", "b"]), vec!["cp", "a", "--to=b/", "-v"]);
    assert_eq!(inv.fill(&["a", "b", "c"]), vec!["cp", "a", "--to=b/c", "-v"]);
}

#[test]
fn leading_slot_positions() {
    let inv = Invoker::new("%", words(&["%", "%", "x"]));
    assert_eq!(inv.offsets, vec![0, 1]);
    assert_eq!(inv.fill(&["a", "b"]), vec!["a", "b", "x"]);
    assert_eq!(inv.fill(&["a"]), vec!["a", "x"]);
    assert_eq!(inv.fill(&["a", "b", "c"]), vec!["a", "b", "x", "c"]);
}

#[test]
fn detach_keeps_order_and_content() {
    let inv = Invoker::new("%", words(&["cat", "%", "-E", "n=%"]));
    let preview = inv.preview(&["hello", "world", "more"]);
    let detached = preview.detach();
    let owned: Vec<&str> = detached.args().iter().map(|s| s.as_str()).collect();
    assert_eq!(owned, preview.as_strs());
    assert_eq!(detached.render(), preview.render());
    assert_eq!(preview.render(), "cat hello -E n=world more".to_string());
}

#[test]
fn render_of_one_argument_has_no_space() {
    let inv = Invoker::new("%", words(&["true"]));
    assert_eq!(inv.preview(&[]).render(), "true".to_string());
}

#[test]
fn stripped_text_and_marks_make_up_the_word() {
    let word = "a%%b%c";
    match Template::new("%", word.to_string()) {
        Template::Interp { offsets, base } => {
            assert_eq!(base.len() + offsets.len() * "%".len(), word.len());
            for (i, mark) in offsets.iter().enumerate() {
                let at = mark + i * "%".len();
                assert_eq!(&word[at..at + 1], "%");
            }
            assert_eq!(offsets, vec![1, 1, 2]);
            assert_eq!(base, "abc".to_string());
        }
        Template::Static(_) => panic!("the word holds the pattern"),
    }
}

#[test]
fn slot_values_and_words_keep_their_places() {
    let inv = Invoker::new("%", words(&["run", "%", "a=%,b=%", "%", "end"]));
    let inputs = ["v0", "v1", "v2", "v3"];
    let out = inv.fill(&inputs);
    assert_eq!(out, vec!["run", "v0", "a=v1,b=v2", "v3", "end"]);
    assert_eq!(out[inv.offsets[0]], inputs[0]);
    assert_eq!(out[inv.offsets[1]], inputs[1 + 2]);
    let short = inv.fill(&inputs[..2]);
    assert_eq!(short, vec!["run", "v0", "a=v1,b=", "end"]);
    assert_eq!(short.len(), inv.templates.len() + 1);
    let dry = inv.fill(&inputs[..1]);
    assert_eq!(dry, vec!["run", "v0", "a=,b=", "end"]);
}

#[test]
fn exact_fill_uses_each_value_once_in_order() {
    let command = words(&["%", "a", "x%y%z", "%", "%%", "end"]);
    let inv = Invoker::new("%", command);
    assert_eq!(inv.slots(), 6);
    let out = inv.fill(&["1", "2", "3", "4", "5", "6"]);
    assert_eq!(out, vec!["1", "a", "x2y3z", "4", "56", "end"]);
}

#[test]
fn underfill_inside_words_leaves_later_occurrences_empty() {
    let inv = Invoker::new("%", words(&["dd", "if=%", "of=%", "bs=%%"]));
    assert_eq!(inv.slots(), 4);
    assert_eq!(inv.fill(&["a", "b", "1"]), vec!["dd", "if=a", "of=b", "bs=1"]);
    assert_eq!(inv.fill(&["a"]), vec!["dd", "if=a", "of=", "bs="]);
    assert_eq!(inv.fill(&[]), vec!["dd", "if=", "of=", "bs="]);
}

#[test]
fn underfill_of_plain_slots_keeps_words_behind_a_dropped_slot() {
    let inv = Invoker::new("%", words(&["mv", "%", "-t", "%", "--", "%", "tail"]));
    assert_eq!(inv.fill(&["a", "b"]), vec!["mv", "a", "-t", "b", "--", "tail"]);
    assert_eq!(inv.fill(&["a"]), vec!["mv", "a", "-t", "--", "tail"]);
    assert_eq!(inv.fill(&[]), vec!["mv", "-t", "--", "tail"]);
    assert_eq!(inv.fill(&["a"]).len(), 7 - 2);
}
