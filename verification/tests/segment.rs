use rope::segment::{edge_step, next_step, prev_step, EdgeStep, Incomplete, Step};

#[test]
fn steps_forward() {
    assert_eq!(Step::Done(Some(3)), next_step(Ok(Some(3)), 5));
    assert_eq!(Step::LeafEnd(5), next_step(Ok(Some(5)), 5));
    assert_eq!(Step::Done(None), next_step(Ok(None), 5));
    assert_eq!(Step::Context(2), next_step(Err(Incomplete::PreContext(2)), 5));
    assert_eq!(Step::Done(None), next_step(Err(Incomplete::NextChunk), 5));
    assert_eq!(Step::Done(None), next_step(Err(Incomplete::PrevChunk), 5));
    assert_eq!(Step::Done(None), next_step(Err(Incomplete::InvalidOffset), 5));
}

#[test]
fn steps_backward() {
    assert_eq!(Step::Done(Some(3)), prev_step(Ok(Some(3))));
    assert_eq!(Step::Done(None), prev_step(Ok(None)));
    assert_eq!(Step::Context(2), prev_step(Err(Incomplete::PreContext(2))));
    assert_eq!(Step::PrevLeaf, prev_step(Err(Incomplete::PrevChunk)));
    assert_eq!(Step::Done(None), prev_step(Err(Incomplete::NextChunk)));
    assert_eq!(Step::Done(None), prev_step(Err(Incomplete::InvalidOffset)));
}

#[test]
fn steps_at_an_edge() {
    assert_eq!(EdgeStep::Boundary, edge_step(Ok(true)));
    assert_eq!(EdgeStep::Inside, edge_step(Ok(false)));
    assert_eq!(EdgeStep::Context(2), edge_step(Err(Incomplete::PreContext(2))));
    assert_eq!(EdgeStep::Boundary, edge_step(Err(Incomplete::NextChunk)));
    assert_eq!(EdgeStep::Boundary, edge_step(Err(Incomplete::PrevChunk)));
    assert_eq!(EdgeStep::Boundary, edge_step(Err(Incomplete::InvalidOffset)));
}
