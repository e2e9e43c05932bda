use battlesnake::input::{ApiSnake, Board as ApiBoard, GameData, GameInfo};
use battlesnake::point::Point;

fn snapshot_solo() -> GameInfo {
    GameInfo {
        game: GameData { id: String::from("00ca670e-d1e2-485f-9c39-17b531c9f377"), timeout: 500 },
        turn: 0,
        board: ApiBoard {
            height: 7,
            width: 7,
            food: vec![
                Point { x: 6, y: 4 },
                Point { x: 3, y: 3 },
            ],
            hazards: vec![],
            snakes: vec![
                ApiSnake {
                    id: String::from("gs_gvjGj8FFftxTwh4T9fhx498D"),
                    name: String::from("DefaultAWS"),
                    health: 100,
                    body: vec![
                        Point { x: 5, y: 5 },
                        Point { x: 5, y: 5 },
                        Point { x: 5, y: 5 },
                    ],
                    head: Point { x: 5, y: 5 },
                    length: 3,
                    shout: String::from(""),
                },
            ],
        },
        you: ApiSnake {
            id: String::from("gs_gvjGj8FFftxTwh4T9fhx498D"),
            name: String::from("DefaultAWS"),
            health: 100,
            body: vec![
                Point { x: 5, y: 5 },
                Point { x: 5, y: 5 },
                Point { x: 5, y: 5 },
            ],
            head: Point { x: 5, y: 5 },
            length: 3,
            shout: String::from(""),
        },
    }
}

#[test]
fn test_input() {
    let gameinfo = snapshot_solo();
    println!("{:?}", gameinfo);
    assert_eq!(gameinfo.get_board_dimensions(), (7, 7));
    assert_eq!(gameinfo.get_my_head(), Point { x: 5, y: 5 });
    assert_eq!(gameinfo.get_my_health(), 100);
    assert_eq!(gameinfo.get_my_index(), 0);
    assert_eq!(gameinfo.get_my_id(), "gs_gvjGj8FFftxTwh4T9fhx498D");
    assert_eq!(gameinfo.get_game_id(), "00ca670e-d1e2-485f-9c39-17b531c9f377");
    assert_eq!(gameinfo.get_turn(), 0);
    assert_eq!(gameinfo.get_my_length(), 3);
    assert_eq!(gameinfo.get_food(), vec![Point { x: 6, y: 4 }, Point { x: 3, y: 3 }]);
    assert!(gameinfo.get_hazards().is_empty());
    assert_eq!(gameinfo.get_heads(), vec![Point { x: 5, y: 5 }]);
    assert_eq!(gameinfo.get_snake_bodies(), vec![vec![Point { x: 5, y: 5 }; 3]]);
    assert!(gameinfo.get_head_collision_hazard().is_empty());
}
