use balpan::annotate;
use balpan::locate::{locate, NodeKind, SyntaxNode};
use balpan::patch::{apply, DefinitionKind, DefinitionSite, PatchError};

fn node(kind: NodeKind, source: &str, needle: &str, children: Vec<SyntaxNode>) -> SyntaxNode {
    let start = source.find(needle).unwrap();
    let mut end = start + needle.len();
    for c in &children {
        end = end.max(c.end);
    }
    SyntaxNode { kind, start, end, children }
}

fn root(source: &str, children: Vec<SyntaxNode>) -> SyntaxNode {
    SyntaxNode { kind: NodeKind::Other, start: 0, end: source.len(), children }
}

fn analyze(source: &str, tree: &SyntaxNode) -> String {
    let out = annotate(&source.as_bytes().to_vec(), tree, &b"#".to_vec());
    String::from_utf8(out).unwrap()
}

fn strip_markers(text: &str) -> String {
    text.split_inclusive('\n').filter(|l| !l.ends_with(" [TODO]\n")).collect()
}

const CAR: &str = "class Car(models.Model):
    name = models.CharField(max_length=20)
    default_parts = models.ManyToManyField(Part)
    optional_parts = models.ManyToManyField(Part, related_name=\"cars_optional\")

    class Meta:
        ordering = (\"name\",)";

fn car_tree() -> SyntaxNode {
    let s = CAR;
    root(
        s,
        vec![node(
            NodeKind::ClassDefinition,
            s,
            "class Car",
            vec![
                node(NodeKind::Other, s, "name =", vec![]),
                node(NodeKind::Other, s, "default_parts", vec![]),
                node(NodeKind::Other, s, "optional_parts", vec![]),
                node(
                    NodeKind::ClassDefinition,
                    s,
                    "class Meta",
                    vec![node(NodeKind::Other, s, "ordering", vec![])],
                ),
            ],
        )],
    )
}

const CHOICES: &str = "      
class Choices(enum.Enum, metaclass=ChoicesMeta):
    \"\"\"Class for creating enumerated choices.\"\"\"

    @DynamicClassAttribute
    def label(self):
        return self._label_

    @property
    def do_not_call_in_templates(self):
        return True";

fn choices_tree() -> SyntaxNode {
    let s = CHOICES;
    root(
        s,
        vec![node(
            NodeKind::ClassDefinition,
            s,
            "class Choices",
            vec![
                node(NodeKind::Other, s, "\"\"\"Class", vec![]),
                node(
                    NodeKind::DecoratedDefinition,
                    s,
                    "@DynamicClassAttribute",
                    vec![
                        node(NodeKind::Decorator, s, "@DynamicClassAttribute", vec![]),
                        node(
                            NodeKind::FunctionDefinition,
                            s,
                            "def label",
                            vec![node(NodeKind::Other, s, "return self._label_", vec![])],
                        ),
                    ],
                ),
                node(
                    NodeKind::DecoratedDefinition,
                    s,
                    "@property",
                    vec![
                        node(NodeKind::Decorator, s, "@property", vec![]),
                        node(
                            NodeKind::FunctionDefinition,
                            s,
                            "def do_not_call",
                            vec![node(NodeKind::Other, s, "return True", vec![])],
                        ),
                    ],
                ),
            ],
        )],
    )
}

#[test]
fn test_class_definition_within_class() {
    let result = "# [TODO]
class Car(models.Model):
    name = models.CharField(max_length=20)
    default_parts = models.ManyToManyField(Part)
    optional_parts = models.ManyToManyField(Part, related_name=\"cars_optional\")

    # [TODO]
    class Meta:
        ordering = (\"name\",)";
    assert_eq!(analyze(CAR, &car_tree()), result);
}

#[test]
fn test_decorated_definitions_within_class_definition() {
    let result = "      
# [TODO]
class Choices(enum.Enum, metaclass=ChoicesMeta):
    \"\"\"Class for creating enumerated choices.\"\"\"

    # [TODO]
    @DynamicClassAttribute
    def label(self):
        return self._label_

    # [TODO]
    @property
    def do_not_call_in_templates(self):
        return True";
    assert_eq!(analyze(CHOICES, &choices_tree()), result);
}

#[test]
fn one_site_per_definition_none_for_statements() {
    let sites = locate(&choices_tree(), &CHOICES.as_bytes().to_vec());
    let kinds: Vec<DefinitionKind> = sites.iter().map(|s| s.kind).collect();
    assert_eq!(
        kinds,
        vec![
            DefinitionKind::Class,
            DefinitionKind::DecoratedDefinition,
            DefinitionKind::DecoratedDefinition,
        ]
    );
    let depths: Vec<usize> = sites.iter().map(|s| s.depth).collect();
    assert_eq!(depths, vec![0, 1, 1]);
    assert_eq!(sites[1].indent, b"    ".to_vec());
    let statements_only = "x = 1\ny = 2\n";
    let tree = root(
        statements_only,
        vec![
            node(NodeKind::Other, statements_only, "x = 1", vec![]),
            node(NodeKind::Other, statements_only, "y = 2", vec![]),
        ],
    );
    assert!(locate(&tree, &statements_only.as_bytes().to_vec()).is_empty());
}

#[test]
fn decorators_anchor_at_first_decorator_line() {
    let s = "x = 0\n@a\n@b\ndef f():\n    pass\n";
    let tree = root(
        s,
        vec![
            node(NodeKind::Other, s, "x = 0", vec![]),
            node(
                NodeKind::DecoratedDefinition,
                s,
                "@a",
                vec![
                    node(NodeKind::Decorator, s, "@a", vec![]),
                    node(NodeKind::Decorator, s, "@b", vec![]),
                    node(NodeKind::FunctionDefinition, s, "def f", vec![]),
                ],
            ),
        ],
    );
    let sites = locate(&tree, &s.as_bytes().to_vec());
    assert_eq!(sites.len(), 1);
    assert_eq!(sites[0].anchor, 6);
    assert_eq!(analyze(s, &tree), "x = 0\n# [TODO]\n@a\n@b\ndef f():\n    pass\n");
}

#[test]
fn nested_sites_are_patched_at_their_own_offsets() {
    let text = b"class A:\n    def f():\n        pass\n".to_vec();
    let sites = vec![
        DefinitionSite { kind: DefinitionKind::Class, anchor: 0, indent: vec![], depth: 0 },
        DefinitionSite {
            kind: DefinitionKind::Method,
            anchor: 9,
            indent: b"    ".to_vec(),
            depth: 1,
        },
    ];
    let out = apply(&text, &sites, &b"//".to_vec()).unwrap();
    assert_eq!(
        String::from_utf8(out).unwrap(),
        "// [TODO]\nclass A:\n    // [TODO]\n    def f():\n        pass\n"
    );
}

#[test]
fn anchor_past_end_is_rejected() {
    let text = b"abc".to_vec();
    let sites = vec![DefinitionSite { kind: DefinitionKind::Function, anchor: 4, indent: vec![], depth: 0 }];
    assert_eq!(apply(&text, &sites, &b"#".to_vec()), Err(PatchError::AnchorOutOfRange));
    let at_end = vec![DefinitionSite { kind: DefinitionKind::Function, anchor: 3, indent: vec![], depth: 0 }];
    assert_eq!(apply(&text, &at_end, &b"#".to_vec()).unwrap(), b"abc# [TODO]\n".to_vec());
}

#[test]
fn stripping_markers_restores_input() {
    assert_eq!(strip_markers(&analyze(CAR, &car_tree())), CAR);
    assert_eq!(strip_markers(&analyze(CHOICES, &choices_tree())), CHOICES);
}

#[test]
fn running_twice_adds_second_marker() {
    let once = analyze(CAR, &car_tree());
    let tree = root(
        &once,
        vec![node(NodeKind::ClassDefinition, &once, "class Car", vec![])],
    );
    let twice = analyze(&once, &tree);
    assert!(twice.starts_with("# [TODO]\n# [TODO]\nclass Car"));
}

#[test]
fn docstring_does_not_suppress_sites() {
    let out = analyze(CHOICES, &choices_tree());
    assert_eq!(out.matches("# [TODO]").count(), 3);
}

#[test]
fn car_with_meta_gets_two_markers() {
    let s = "class Car(models.Model):\n    name = models.CharField(max_length=20)\n\n    class Meta:\n        ordering = (\"name\",)\n";
    let tree = root(
        s,
        vec![node(
            NodeKind::ClassDefinition,
            s,
            "class Car",
            vec![
                node(NodeKind::Other, s, "name =", vec![]),
                node(
                    NodeKind::ClassDefinition,
                    s,
                    "class Meta",
                    vec![node(NodeKind::Other, s, "ordering", vec![])],
                ),
            ],
        )],
    );
    assert_eq!(
        analyze(s, &tree),
        "# [TODO]\nclass Car(models.Model):\n    name = models.CharField(max_length=20)\n\n    # [TODO]\n    class Meta:\n        ordering = (\"name\",)\n"
    );
}

#[test]
fn sites_in_any_order_give_the_same_text() {
    let text = b"class A:\n    def f():\n        pass\n".to_vec();
    let sites = vec![
        DefinitionSite {
            kind: DefinitionKind::Method,
            anchor: 9,
            indent: b"    ".to_vec(),
            depth: 1,
        },
        DefinitionSite { kind: DefinitionKind::Class, anchor: 0, indent: vec![], depth: 0 },
    ];
    let out = apply(&text, &sites, &b"#".to_vec()).unwrap();
    assert_eq!(
        String::from_utf8(out).unwrap(),
        "# [TODO]\nclass A:\n    # [TODO]\n    def f():\n        pass\n"
    );
}
