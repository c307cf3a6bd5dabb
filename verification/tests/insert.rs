use art::tree::Kind;
use art::Art;
use art::Cell;
use art::Node;

/// Removes the indentation that all lines share, and the blank lines at
/// both ends.
fn plain(text: &str) -> String {
    let lines: Vec<&str> = text.lines().collect();
    let mut first = 0;
    while first < lines.len() && lines[first].trim().is_empty() {
        first += 1;
    }
    let mut last = lines.len();
    while last > first && lines[last - 1].trim().is_empty() {
        last -= 1;
    }
    let mut margin = usize::MAX;
    for line in &lines[first..last] {
        if !line.trim().is_empty() {
            let indent = line.len() - line.trim_start().len();
            if indent < margin {
                margin = indent;
            }
        }
    }
    let mut out = String::new();
    for (i, line) in lines[first..last].iter().enumerate() {
        if i > 0 {
            out.push('\n');
        }
        if line.len() >= margin {
            out.push_str(&line[margin..]);
        }
    }
    out
}

fn pad(out: &mut String, depth: usize) {
    for _ in 0..depth {
        out.push_str("    ");
    }
}

fn show_cell(cell: Cell) -> String {
    match cell {
        Cell::Byte(k) => format!("`{}`", k as char),
        Cell::Vacant => String::from("___"),
        Cell::End => String::from("END"),
    }
}

fn show_path(path: &[u8]) -> String {
    let shown = match std::str::from_utf8(path) {
        Ok(s) => format!("`{}` ({:?})", s, path),
        Err(_) => format!("{:?}", path),
    };
    format!("{:?}", shown)
}

fn show_table(node: &Node, size: usize, name: &str, depth: usize, out: &mut String) {
    out.push_str(&format!("{}(\n", name));
    pad(out, depth + 1);
    out.push_str("StaticNode {\n");
    pad(out, depth + 2);
    out.push_str("keys: [\n");
    for i in 0..size {
        pad(out, depth + 3);
        out.push_str(&show_cell(node.selector_at(i)));
        out.push_str(",\n");
    }
    pad(out, depth + 2);
    out.push_str("],\n");
    pad(out, depth + 2);
    out.push_str("values: [\n");
    for i in 0..size {
        pad(out, depth + 3);
        match node.child(node.selector_at(i)) {
            Some(child) => {
                out.push_str("Some(\n");
                pad(out, depth + 4);
                show_node(child, depth + 4, out);
                out.push_str(",\n");
                pad(out, depth + 3);
                out.push_str("),\n");
            }
            None => out.push_str("None,\n"),
        }
    }
    pad(out, depth + 2);
    out.push_str("],\n");
    pad(out, depth + 1);
    out.push_str("},\n");
    pad(out, depth);
    out.push_str(")");
}

fn show_node(node: &Node, depth: usize, out: &mut String) {
    out.push_str("Node {\n");
    pad(out, depth + 1);
    out.push_str(&format!("nb_childrens: {},\n", node.children_count()));
    pad(out, depth + 1);
    out.push_str(&format!("path: {},\n", show_path(node.path())));
    pad(out, depth + 1);
    out.push_str("inner: ");
    match node.kind() {
        Kind::Empty => out.push_str("Empty"),
        Kind::Leaf => {
            out.push_str("SingleValueLeaf(\n");
            pad(out, depth + 2);
            out.push_str(&format!("{},\n", node.value().unwrap()));
            pad(out, depth + 1);
            out.push_str(")");
        }
        Kind::Inner4 => show_table(node, 4, "Node4", depth + 1, out),
        Kind::Inner16 => show_table(node, 16, "Node16", depth + 1, out),
        Kind::Inner48 => out.push_str("Node48"),
        Kind::Inner256 => out.push_str("Node256"),
    }
    out.push_str(",\n");
    pad(out, depth);
    out.push_str("}");
}

/// The structure of a tree, written out level by level.
fn dump(art: &Art) -> String {
    let mut out = String::from("Art {\n");
    pad(&mut out, 1);
    out.push_str("root: ");
    show_node(art.root(), 1, &mut out);
    out.push_str(",\n}");
    out
}

fn shown(value: Option<u64>) -> String {
    format!("{:#?}", value)
}

#[test]
fn simple_new() {
    let art = Art::new();
    assert_eq!(dump(&art), plain(r###"
    Art {
        root: Node {
            nb_childrens: 0,
            path: "`` ([])",
            inner: Empty,
        },
    }
    "###));
}

#[test]
fn single_insert() {
    let mut art = Art::new();
    let ret = art.insert(b"hello", 42);
    assert_eq!(shown(ret), plain("None"));
    assert_eq!(dump(&art), plain(r###"
    Art {
        root: Node {
            nb_childrens: 1,
            path: "`hello` ([104, 101, 108, 108, 111])",
            inner: SingleValueLeaf(
                42,
            ),
        },
    }
    "###));
}

#[test]
fn single_insert_and_replace() {
    let mut art = Art::new();
    art.insert(b"hello", 42);
    let ret = art.insert(b"hello", 43);
    assert_eq!(shown(ret), plain(r###"
    Some(
        42,
    )
    "###));

    assert_eq!(dump(&art), plain(r###"
    Art {
        root: Node {
            nb_childrens: 1,
            path: "`hello` ([104, 101, 108, 108, 111])",
            inner: SingleValueLeaf(
                43,
            ),
        },
    }
    "###));
}

#[test]
fn insert_two_values_without_common_parts() {
    let mut art = Art::new();
    art.insert(b"hello", 42);
    let ret = art.insert(b"world", 43);
    assert_eq!(shown(ret), plain("None"));

    assert_eq!(dump(&art), plain(r###"
    Art {
        root: Node {
            nb_childrens: 2,
            path: "`` ([])",
            inner: Node4(
                StaticNode {
                    keys: [
                        `h`,
                        `w`,
                        ___,
                        ___,
                    ],
                    values: [
                        Some(
                            Node {
                                nb_childrens: 1,
                                path: "`hello` ([104, 101, 108, 108, 111])",
                                inner: SingleValueLeaf(
                                    42,
                                ),
                            },
                        ),
                        Some(
                            Node {
                                nb_childrens: 1,
                                path: "`world` ([119, 111, 114, 108, 100])",
                                inner: SingleValueLeaf(
                                    43,
                                ),
                            },
                        ),
                        None,
                        None,
                    ],
                },
            ),
        },
    }
    "###));
}

#[test]
fn insert_two_values_with_common_parts() {
    let mut art = Art::new();
    art.insert(b"hello", 42);
    let ret = art.insert(b"hella", 43);
    assert_eq!(shown(ret), plain("None"));

    assert_eq!(dump(&art), plain(r###"
    Art {
        root: Node {
            nb_childrens: 2,
            path: "`hell` ([104, 101, 108, 108])",
            inner: Node4(
                StaticNode {
                    keys: [
                        `a`,
                        `o`,
                        ___,
                        ___,
                    ],
                    values: [
                        Some(
                            Node {
                                nb_childrens: 1,
                                path: "`a` ([97])",
                                inner: SingleValueLeaf(
                                    43,
                                ),
                            },
                        ),
                        Some(
                            Node {
                                nb_childrens: 1,
                                path: "`o` ([111])",
                                inner: SingleValueLeaf(
                                    42,
                                ),
                            },
                        ),
                        None,
                        None,
                    ],
                },
            ),
        },
    }
    "###));
}

#[test]
fn insert_two_values_with_one_embedded_in_the_other() {
    let mut art = Art::new();
    art.insert(b"hello", 42);
    let ret = art.insert(b"hell", 43);
    assert_eq!(shown(ret), plain("None"));

    assert_eq!(dump(&art), plain(r###"
    Art {
        root: Node {
            nb_childrens: 2,
            path: "`hell` ([104, 101, 108, 108])",
            inner: Node4(
                StaticNode {
                    keys: [
                        END,
                        `o`,
                        ___,
                        ___,
                    ],
                    values: [
                        Some(
                            Node {
                                nb_childrens: 1,
                                path: "`` ([])",
                                inner: SingleValueLeaf(
                                    43,
                                ),
                            },
                        ),
                        Some(
                            Node {
                                nb_childrens: 1,
                                path: "`o` ([111])",
                                inner: SingleValueLeaf(
                                    42,
                                ),
                            },
                        ),
                        None,
                        None,
                    ],
                },
            ),
        },
    }
    "###));
}

#[test]
fn reinsert_a_value_in_node4() {
    let mut art = Art::new();
    art.insert(b"hello", 42);
    art.insert(b"hell", 43);
    let ret = art.insert(b"hell", 44);
    assert_eq!(shown(ret), plain(r###"
    Some(
        43,
    )
    "###));

    assert_eq!(dump(&art), plain(r###"
    Art {
        root: Node {
            nb_childrens: 2,
            path: "`hell` ([104, 101, 108, 108])",
            inner: Node4(
                StaticNode {
                    keys: [
                        END,
                        `o`,
                        ___,
                        ___,
                    ],
                    values: [
                        Some(
                            Node {
                                nb_childrens: 1,
                                path: "`` ([])",
                                inner: SingleValueLeaf(
                                    44,
                                ),
                            },
                        ),
                        Some(
                            Node {
                                nb_childrens: 1,
                                path: "`o` ([111])",
                                inner: SingleValueLeaf(
                                    42,
                                ),
                            },
                        ),
                        None,
                        None,
                    ],
                },
            ),
        },
    }
    "###));
}

#[test]
fn insert_a_prefix_value_in_node4() {
    let mut art = Art::new();
    art.insert(b"hello", 42);
    art.insert(b"hella", 43);
    let ret = art.insert(b"hell", 44);
    assert_eq!(shown(ret), plain("None"));

    assert_eq!(dump(&art), plain(r###"
    Art {
        root: Node {
            nb_childrens: 3,
            path: "`hell` ([104, 101, 108, 108])",
            inner: Node4(
                StaticNode {
                    keys: [
                        END,
                        `a`,
                        `o`,
                        ___,
                    ],
                    values: [
                        Some(
                            Node {
                                nb_childrens: 1,
                                path: "`` ([])",
                                inner: SingleValueLeaf(
                                    44,
                                ),
                            },
                        ),
                        Some(
                            Node {
                                nb_childrens: 1,
                                path: "`a` ([97])",
                                inner: SingleValueLeaf(
                                    43,
                                ),
                            },
                        ),
                        Some(
                            Node {
                                nb_childrens: 1,
                                path: "`o` ([111])",
                                inner: SingleValueLeaf(
                                    42,
                                ),
                            },
                        ),
                        None,
                    ],
                },
            ),
        },
    }
    "###));
}

#[test]
fn insert_a_prefix_value_in_a_full_node4() {
    let mut art = Art::new();
    art.insert(b"hello", 42);
    art.insert(b"hella", 43);
    art.insert(b"helli", 44);
    art.insert(b"hellu", 45);
    let ret = art.insert(b"hell", 46);
    assert_eq!(shown(ret), plain("None"));

    assert_eq!(dump(&art), plain(r###"
    Art {
        root: Node {
            nb_childrens: 5,
            path: "`hell` ([104, 101, 108, 108])",
            inner: Node16(
                StaticNode {
                    keys: [
                        END,
                        `a`,
                        `i`,
                        `o`,
                        `u`,
                        ___,
                        ___,
                        ___,
                        ___,
                        ___,
                        ___,
                        ___,
                        ___,
                        ___,
                        ___,
                        ___,
                    ],
                    values: [
                        Some(
                            Node {
                                nb_childrens: 1,
                                path: "`` ([])",
                                inner: SingleValueLeaf(
                                    46,
                                ),
                            },
                        ),
                        Some(
                            Node {
                                nb_childrens: 1,
                                path: "`a` ([97])",
                                inner: SingleValueLeaf(
                                    43,
                                ),
                            },
                        ),
                        Some(
                            Node {
                                nb_childrens: 1,
                                path: "`i` ([105])",
                                inner: SingleValueLeaf(
                                    44,
                                ),
                            },
                        ),
                        Some(
                            Node {
                                nb_childrens: 1,
                                path: "`o` ([111])",
                                inner: SingleValueLeaf(
                                    42,
                                ),
                            },
                        ),
                        Some(
                            Node {
                                nb_childrens: 1,
                                path: "`u` ([117])",
                                inner: SingleValueLeaf(
                                    45,
                                ),
                            },
                        ),
                        None,
                        None,
                        None,
                        None,
                        None,
                        None,
                        None,
                        None,
                        None,
                        None,
                        None,
                    ],
                },
            ),
        },
    }
    "###));
}

#[test]
fn insert_4_values_with_prefix() {
    let mut art = Art::new();
    assert_eq!(dump(&art), plain(r###"
    Art {
        root: Node {
            nb_childrens: 0,
            path: "`` ([])",
            inner: Empty,
        },
    }
    "###));
    art.insert(b"hello", 42);
    assert_eq!(dump(&art), plain(r###"
    Art {
        root: Node {
            nb_childrens: 1,
            path: "`hello` ([104, 101, 108, 108, 111])",
            inner: SingleValueLeaf(
                42,
            ),
        },
    }
    "###));
    art.insert(b"hella", 43);
    assert_eq!(dump(&art), plain(r###"
    Art {
        root: Node {
            nb_childrens: 2,
            path: "`hell` ([104, 101, 108, 108])",
            inner: Node4(
                StaticNode {
                    keys: [
                        `a`,
                        `o`,
                        ___,
                        ___,
                    ],
                    values: [
                        Some(
                            Node {
                                nb_childrens: 1,
                                path: "`a` ([97])",
                                inner: SingleValueLeaf(
                                    43,
                                ),
                            },
                        ),
                        Some(
                            Node {
                                nb_childrens: 1,
                                path: "`o` ([111])",
                                inner: SingleValueLeaf(
                                    42,
                                ),
                            },
                        ),
                        None,
                        None,
                    ],
                },
            ),
        },
    }
    "###));
    art.insert(b"helli", 44);
    assert_eq!(dump(&art), plain(r###"
    Art {
        root: Node {
            nb_childrens: 3,
            path: "`hell` ([104, 101, 108, 108])",
            inner: Node4(
                StaticNode {
                    keys: [
                        `a`,
                        `i`,
                        `o`,
                        ___,
                    ],
                    values: [
                        Some(
                            Node {
                                nb_childrens: 1,
                                path: "`a` ([97])",
                                inner: SingleValueLeaf(
                                    43,
                                ),
                            },
                        ),
                        Some(
                            Node {
                                nb_childrens: 1,
                                path: "`i` ([105])",
                                inner: SingleValueLeaf(
                                    44,
                                ),
                            },
                        ),
                        Some(
                            Node {
                                nb_childrens: 1,
                                path: "`o` ([111])",
                                inner: SingleValueLeaf(
                                    42,
                                ),
                            },
                        ),
                        None,
                    ],
                },
            ),
        },
    }
    "###));
    art.insert(b"hellu", 45);
    assert_eq!(dump(&art), plain(r###"
    Art {
        root: Node {
            nb_childrens: 4,
            path: "`hell` ([104, 101, 108, 108])",
            inner: Node4(
                StaticNode {
                    keys: [
                        `a`,
                        `i`,
                        `o`,
                        `u`,
                    ],
                    values: [
                        Some(
                            Node {
                                nb_childrens: 1,
                                path: "`a` ([97])",
                                inner: SingleValueLeaf(
                                    43,
                                ),
                            },
                        ),
                        Some(
                            Node {
                                nb_childrens: 1,
                                path: "`i` ([105])",
                                inner: SingleValueLeaf(
                                    44,
                                ),
                            },
                        ),
                        Some(
                            Node {
                                nb_childrens: 1,
                                path: "`o` ([111])",
                                inner: SingleValueLeaf(
                                    42,
                                ),
                            },
                        ),
                        Some(
                            Node {
                                nb_childrens: 1,
                                path: "`u` ([117])",
                                inner: SingleValueLeaf(
                                    45,
                                ),
                            },
                        ),
                    ],
                },
            ),
        },
    }
    "###));
}

#[test]
fn insert_a_value_in_a_full_node4() {
    let mut art = Art::new();
    art.insert(b"hello", 42);
    art.insert(b"hella", 43);
    art.insert(b"helli", 44);
    art.insert(b"hellu", 45);
    let ret = art.insert(b"hellyolo", 46);
    assert_eq!(shown(ret), plain("None"));

    assert_eq!(dump(&art), plain(r###"
    Art {
        root: Node {
            nb_childrens: 5,
            path: "`hell` ([104, 101, 108, 108])",
            inner: Node16(
                StaticNode {
                    keys: [
                        `a`,
                        `i`,
                        `o`,
                        `u`,
                        `y`,
                        ___,
                        ___,
                        ___,
                        ___,
                        ___,
                        ___,
                        ___,
                        ___,
                        ___,
                        ___,
                        ___,
                    ],
                    values: [
                        Some(
                            Node {
                                nb_childrens: 1,
                                path: "`a` ([97])",
                                inner: SingleValueLeaf(
                                    43,
                                ),
                            },
                        ),
                        Some(
                            Node {
                                nb_childrens: 1,
                                path: "`i` ([105])",
                                inner: SingleValueLeaf(
                                    44,
                                ),
                            },
                        ),
                        Some(
                            Node {
                                nb_childrens: 1,
                                path: "`o` ([111])",
                                inner: SingleValueLeaf(
                                    42,
                                ),
                            },
                        ),
                        Some(
                            Node {
                                nb_childrens: 1,
                                path: "`u` ([117])",
                                inner: SingleValueLeaf(
                                    45,
                                ),
                            },
                        ),
                        Some(
                            Node {
                                nb_childrens: 1,
                                path: "`yolo` ([121, 111, 108, 111])",
                                inner: SingleValueLeaf(
                                    46,
                                ),
                            },
                        ),
                        None,
                        None,
                        None,
                        None,
                        None,
                        None,
                        None,
                        None,
                        None,
                        None,
                        None,
                    ],
                },
            ),
        },
    }
    "###));
}

#[test]
fn insert_several_values() {
    let mut art = Art::new();
    art.insert(b"hello", 42);
    art.insert(b"hella", 43);
    let ret = art.insert(b"helli", 44);
    assert_eq!(shown(ret), plain("None"));

    assert_eq!(dump(&art), plain(r###"
    Art {
        root: Node {
            nb_childrens: 3,
            path: "`hell` ([104, 101, 108, 108])",
            inner: Node4(
                StaticNode {
                    keys: [
                        `a`,
                        `i`,
                        `o`,
                        ___,
                    ],
                    values: [
                        Some(
                            Node {
                                nb_childrens: 1,
                                path: "`a` ([97])",
                                inner: SingleValueLeaf(
                                    43,
                                ),
                            },
                        ),
                        Some(
                            Node {
                                nb_childrens: 1,
                                path: "`i` ([105])",
                                inner: SingleValueLeaf(
                                    44,
                                ),
                            },
                        ),
                        Some(
                            Node {
                                nb_childrens: 1,
                                path: "`o` ([111])",
                                inner: SingleValueLeaf(
                                    42,
                                ),
                            },
                        ),
                        None,
                    ],
                },
            ),
        },
    }
    "###));
}

#[test]
fn insert_several_values_with_mismatched_prefix() {
    let mut art = Art::new();
    art.insert(b"hello", 42);
    art.insert(b"hella", 43);
    let ret = art.insert(b"hey", 44);
    assert_eq!(shown(ret), plain("None"));

    assert_eq!(dump(&art), plain(r###"
    Art {
        root: Node {
            nb_childrens: 2,
            path: "`he` ([104, 101])",
            inner: Node4(
                StaticNode {
                    keys: [
                        `l`,
                        `y`,
                        ___,
                        ___,
                    ],
                    values: [
                        Some(
                            Node {
                                nb_childrens: 2,
                                path: "`ll` ([108, 108])",
                                inner: Node4(
                                    StaticNode {
                                        keys: [
                                            `a`,
                                            `o`,
                                            ___,
                                            ___,
                                        ],
                                        values: [
                                            Some(
                                                Node {
                                                    nb_childrens: 1,
                                                    path: "`a` ([97])",
                                                    inner: SingleValueLeaf(
                                                        43,
                                                    ),
                                                },
                                            ),
                                            Some(
                                                Node {
                                                    nb_childrens: 1,
                                                    path: "`o` ([111])",
                                                    inner: SingleValueLeaf(
                                                        42,
                                                    ),
                                                },
                                            ),
                                            None,
                                            None,
                                        ],
                                    },
                                ),
                            },
                        ),
                        Some(
                            Node {
                                nb_childrens: 1,
                                path: "`y` ([121])",
                                inner: SingleValueLeaf(
                                    44,
                                ),
                            },
                        ),
                        None,
                        None,
                    ],
                },
            ),
        },
    }
    "###));
}
