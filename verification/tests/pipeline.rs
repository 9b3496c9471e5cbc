use bwl_meta::models::FrameData;
use bwl_meta::nullify_inconsistent;

#[test]
fn nullify_inconsistent_uses_previous_frame() {
    let mut frames = vec![
        FrameData {
            timestamp: "00:57".to_string(),
            player1supply: Some("9/9".to_string()),
            player2supply: Some("9/9".to_string()),
        },
        FrameData {
            timestamp: "00:58".to_string(),
            player1supply: Some("10/9".to_string()),
            player2supply: Some("10/9".to_string()),
        },
        FrameData {
            timestamp: "00:59".to_string(),
            player1supply: Some("10/9".to_string()),
            player2supply: Some("10/9".to_string()),
        },
    ];

    nullify_inconsistent(&mut frames).unwrap();

    assert_eq!(frames[1].player1supply.as_deref(), Some("10/9"));
    assert_eq!(frames[1].player2supply.as_deref(), Some("10/9"));
}
