use mst::MstError;

#[test]
fn errors_say_what_went_wrong() {
    assert_eq!(MstError::InvalidIndex.message(), "index out of range");
    assert_eq!(
        MstError::DisconnectedGraph.message(),
        "graph not connected, no spanning tree exists"
    );
}

#[test]
fn errors_are_told_apart() {
    assert_ne!(MstError::InvalidIndex, MstError::DisconnectedGraph);
    assert_eq!(MstError::InvalidIndex, MstError::InvalidIndex);
}
