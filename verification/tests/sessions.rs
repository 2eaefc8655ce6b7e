use zec::features::context::Ctx;
use zec::features::sessions::{
    arrange, build, node_of, record, restore, shape_key, Axis, LayoutNode, Node, PaneFacts, PaneId, PaneSession, Session,
    Sessions, SplitAxis, Tab, TabFacts, VERSION,
};

fn tab(path: &str) -> Tab {
    Tab { path: path.to_owned(), row: 3, column: 1, top_row: 2 }
}

fn split(first: Node, second: Node) -> Node {
    Node::Split { axis: SplitAxis::Horizontal, ratio: 400, first: Box::new(first), second: Box::new(second) }
}

#[test]
fn missing_panes_collapse_into_their_siblings() {
    let layout = Node::Split {
        axis: SplitAxis::Horizontal,
        ratio: 400,
        first: Box::new(Node::Pane(0)),
        second: Box::new(Node::Split {
            axis: SplitAxis::Vertical,
            ratio: 500,
            first: Box::new(Node::Pane(1)),
            second: Box::new(Node::Pane(2)),
        }),
    };
    let ids = [Some(PaneId(1)), None, Some(PaneId(3))];
    assert_eq!(
        build(&layout, &ids),
        Some(LayoutNode::Split {
            axis: Axis::Horizontal,
            ratio: 400,
            first: Box::new(LayoutNode::Pane(PaneId(1))),
            second: Box::new(LayoutNode::Pane(PaneId(3))),
        })
    );
    assert_eq!(build(&layout, &[None, None, None]), None);
    assert_eq!(build(&Node::Pane(9), &ids), None);
}

#[test]
fn shape_ignores_carets_and_round_trips_through_json() {
    let session = Session {
        version: VERSION,
        layout: Node::Pane(0),
        panes: vec![PaneSession { tabs: vec![tab("/repo/a.rs")], active: 0 }],
        active_pane: 0,
    };
    let mut moved = session.clone();
    moved.panes[0].tabs[0].row = 40;
    assert_eq!(shape_key(&session), shape_key(&moved));
    let mut added = session.clone();
    added.panes[0].tabs.push(tab("/repo/b.rs"));
    assert_ne!(shape_key(&session), shape_key(&added));
}

fn ctx() -> Ctx {
    Ctx { root: None, active_item: 0, overlays: Vec::new(), status: None }
}

#[test]
fn only_another_shape_is_written_before_the_end() {
    let session = Session {
        version: VERSION,
        layout: Node::Pane(0),
        panes: vec![PaneSession { tabs: vec![tab("/repo/a.rs")], active: 0 }],
        active_pane: 0,
    };
    let mut ctx = ctx();
    let mut sessions = Sessions::default();
    assert!(!sessions.sync(&session));
    assert!(!sessions.finish());
    sessions.bind("/data", "/repo");
    let file = sessions.file().clone().unwrap();
    assert_eq!(
        file,
        "/data/zec-sessions/816fc349d3faebf805d1bed70fce7e14754cad5251c77dda31c414ee961a0bdd.json"
    );
    assert!(sessions.sync(&session));
    sessions.write(&session, Err("full".to_owned()), &mut ctx);
    assert_eq!(ctx.status.as_deref(), Some("session save failed: full"));
    assert!(sessions.sync(&session));
    sessions.write(&session, Ok(()), &mut ctx);
    let mut moved = session.clone();
    moved.panes[0].tabs[0].row = 40;
    assert!(!sessions.sync(&moved));
    assert!(sessions.finish());
    let mut other = Sessions::default();
    other.bind("/data", "/other");
    assert_ne!(other.file(), sessions.file());
    assert_eq!(sessions.load(Some(session.clone())), Some(session.clone()));
    assert_eq!(sessions.load(Some(Session { version: 2, ..session })), None);
    assert_eq!(sessions.load(None), None);
}

#[test]
fn files_come_back_in_their_panes() {
    let session = Session {
        version: VERSION,
        layout: split(Node::Pane(0), Node::Pane(1)),
        panes: vec![
            PaneSession { tabs: vec![tab("/a"), tab("/b"), tab("/c")], active: 1 },
            PaneSession { tabs: vec![tab("/d")], active: 0 },
        ],
        active_pane: 1,
    };
    let back = restore(&session, &vec![vec![None, Some(5), Some(6)], vec![Some(7)]], true);
    assert_eq!((back.restored, back.skipped), (3, 1));
    let workspace = back.workspace.unwrap();
    assert_eq!(workspace.active_pane, PaneId(2));
    assert_eq!(workspace.panes[0].items, vec![5, 6]);
    assert_eq!(workspace.panes[0].active, 0);

    let back = restore(&session, &vec![vec![Some(4), None, Some(6)], vec![None]], true);
    let workspace = back.workspace.unwrap();
    assert_eq!(workspace.root, LayoutNode::Pane(PaneId(1)));
    assert_eq!(workspace.active_pane, PaneId(1));
    assert_eq!(workspace.panes[0].active, 1);

    let nothing = restore(&session, &vec![vec![None, None, None], vec![None]], true);
    assert!(nothing.workspace.is_none());
    assert_eq!((nothing.restored, nothing.skipped), (0, 4));

    let opened = vec![vec![None, Some(5), Some(6)], vec![Some(7)]];
    assert_eq!(arrange(&session, &opened).workspace.unwrap().panes.len(), 2);
    let refused = restore(&session, &opened, false);
    assert!(refused.workspace.is_none());
    assert_eq!((refused.restored, refused.skipped), (0, 1));
}

#[test]
fn the_open_files_are_recorded() {
    let layout = LayoutNode::Split {
        axis: Axis::Vertical,
        ratio: 300,
        first: Box::new(LayoutNode::Pane(PaneId(9))),
        second: Box::new(LayoutNode::Pane(PaneId(4))),
    };
    let panes = vec![
        PaneFacts {
            id: PaneId(4),
            tabs: vec![TabFacts::Missing, TabFacts::File(tab("/a")), TabFacts::Scratch],
            active_index: 2,
        },
        PaneFacts { id: PaneId(9), tabs: vec![TabFacts::Scratch, TabFacts::File(tab("/b"))], active_index: 1 },
    ];
    let session = record(&panes, &layout, PaneId(9));
    assert_eq!(
        session,
        Session {
            version: VERSION,
            layout: Node::Split {
                axis: SplitAxis::Vertical,
                ratio: 300,
                first: Box::new(Node::Pane(1)),
                second: Box::new(Node::Pane(0)),
            },
            panes: vec![
                PaneSession { tabs: vec![tab("/a")], active: 0 },
                PaneSession { tabs: vec![tab("/b")], active: 0 },
            ],
            active_pane: 1,
        }
    );
    assert_eq!(node_of(&layout, &vec![PaneId(4), PaneId(9)]), session.layout);
    assert_eq!(build(&session.layout, &[Some(PaneId(4)), Some(PaneId(9))]), Some(layout));
}
