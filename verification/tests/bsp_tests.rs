use roguelike::bsp::{
    corridor_downward, corridor_sideways, generate_bsp, grow, make_room, Corridor, Node, Region,
    BSP_DEPTH, BSP_MIN_SIZE,
};
use roguelike::map::{Rect, Tile};

fn bsp_rock() -> Vec<Vec<Tile>> {
    vec![vec![Tile::wall(); 100]; 100]
}

fn bsp_flood(map: &Vec<Vec<Tile>>, from: (i32, i32)) -> Vec<Vec<bool>> {
    let mut seen = vec![vec![false; 100]; 100];
    let mut stack = vec![from];
    while let Some((x, y)) = stack.pop() {
        if x < 0 || y < 0 || x >= 100 || y >= 100 {
            continue;
        }
        if seen[x as usize][y as usize] || map[x as usize][y as usize].blocked {
            continue;
        }
        seen[x as usize][y as usize] = true;
        stack.push((x + 1, y));
        stack.push((x - 1, y));
        stack.push((x, y + 1));
        stack.push((x, y - 1));
    }
    seen
}

fn open_tiles(map: &Vec<Vec<Tile>>) -> Vec<(usize, usize)> {
    let mut open = Vec::new();
    for x in 0..100 {
        for y in 0..100 {
            if !map[x][y].blocked {
                open.push((x, y));
            }
        }
    }
    open
}

fn leaves(node: &Node, out: &mut Vec<(Region, Rect)>) {
    match node {
        Node::Leaf { region, room } => out.push((*region, *room)),
        Node::Split { first, second, .. } => {
            leaves(first, out);
            leaves(second, out);
        }
    }
}

fn depth_of(node: &Node) -> u32 {
    match node {
        Node::Leaf { .. } => 0,
        Node::Split { first, second, .. } => 1 + depth_of(first).max(depth_of(second)),
    }
}

#[test]
fn partition_constants() {
    assert_eq!(BSP_DEPTH, 10);
    assert_eq!(BSP_MIN_SIZE, 5);
}

#[test]
fn leaf_carves_its_room() {
    let mut map = bsp_rock();
    let leaf = Node::Leaf {
        region: Region { x: 10, y: 20, w: 8, h: 6 },
        room: Rect { x1: 10, y1: 20, x2: 17, y2: 25 },
    };
    leaf.carve(&mut map);
    for x in 0..100 {
        for y in 0..100 {
            let inside = 10 < x && x < 17 && 20 < y && y < 25;
            assert_eq!(map[x][y].blocked, !inside);
        }
    }
    assert_eq!(leaf.region(), Region { x: 10, y: 20, w: 8, h: 6 });
    assert_eq!(leaf.room(), Rect { x1: 10, y1: 20, x2: 17, y2: 25 });
}

#[test]
fn rooms_side_by_side_are_joined_straight() {
    let mut map = bsp_rock();
    let node = Node::Split {
        region: Region { x: 0, y: 0, w: 30, h: 12 },
        first: Box::new(Node::Leaf {
            region: Region { x: 0, y: 0, w: 15, h: 12 },
            room: Rect { x1: 2, y1: 1, x2: 8, y2: 9 },
        }),
        second: Box::new(Node::Leaf {
            region: Region { x: 15, y: 0, w: 15, h: 12 },
            room: Rect { x1: 20, y1: 4, x2: 27, y2: 11 },
        }),
        corridor: Corridor { horizontal_first: false, via: 6 },
    };
    node.carve(&mut map);
    // the rooms are open, and row 6 is open from the one to the other
    assert!(!map[5][5].blocked && !map[23][7].blocked);
    for x in 5..=23 {
        assert!(!map[x][6].blocked);
    }
    for x in 9..20 {
        for y in 0..12 {
            assert_eq!(map[x][y].blocked, y != 6);
        }
    }
    let mut rooms = Vec::new();
    node.collect_rooms(&mut rooms);
    assert_eq!(rooms, vec![Rect { x1: 2, y1: 1, x2: 8, y2: 9 }, Rect { x1: 20, y1: 4, x2: 27, y2: 11 }]);
    assert_eq!(node.room(), Rect { x1: 2, y1: 1, x2: 8, y2: 9 });
}

#[test]
fn rooms_that_miss_each_other_are_joined_by_a_bent_corridor() {
    let mut map = bsp_rock();
    let node = Node::Split {
        region: Region { x: 0, y: 0, w: 30, h: 30 },
        first: Box::new(Node::Leaf {
            region: Region { x: 0, y: 0, w: 15, h: 30 },
            room: Rect { x1: 2, y1: 1, x2: 8, y2: 7 },
        }),
        second: Box::new(Node::Leaf {
            region: Region { x: 15, y: 0, w: 15, h: 30 },
            room: Rect { x1: 20, y1: 20, x2: 26, y2: 28 },
        }),
        corridor: Corridor { horizontal_first: true, via: 14 },
    };
    node.carve(&mut map);
    // from (5, 4) along row 4 to column 14, down column 14 to row 24, along row 24 to (23, 24)
    for x in 5..=14 {
        assert!(!map[x][4].blocked);
    }
    for y in 4..=24 {
        assert!(!map[14][y].blocked);
    }
    for x in 14..=23 {
        assert!(!map[x][24].blocked);
    }
    assert!(map[15][4].blocked && map[13][24].blocked && map[14][3].blocked && map[14][25].blocked);
    let seen = bsp_flood(&map, (5, 4));
    assert!(seen[23][24]);
    let open = open_tiles(&map).len();
    assert_eq!(open, 5 * 5 + 5 * 7 + 7 + 20 + 6);
}

#[test]
fn corridor_is_straight_where_the_rooms_face_each_other() {
    let mut rng = rand::thread_rng();
    let a = Rect { x1: 2, y1: 1, x2: 8, y2: 9 };
    let b = Rect { x1: 20, y1: 6, x2: 27, y2: 15 };
    for _ in 0..50 {
        let corridor = corridor_sideways(a, b, &mut rng);
        assert!(!corridor.horizontal_first);
        assert!(7 <= corridor.via && corridor.via <= 8);
    }
    let c = Rect { x1: 20, y1: 9, x2: 27, y2: 15 };
    for _ in 0..50 {
        let corridor = corridor_sideways(a, c, &mut rng);
        assert!(corridor.horizontal_first);
        assert!(8 <= corridor.via && corridor.via <= 20);
    }
    let below = Rect { x1: 5, y1: 30, x2: 12, y2: 40 };
    for _ in 0..50 {
        let corridor = corridor_downward(a, below, &mut rng);
        assert!(corridor.horizontal_first);
        assert!(6 <= corridor.via && corridor.via <= 7);
    }
    let aside = Rect { x1: 40, y1: 30, x2: 47, y2: 40 };
    for _ in 0..50 {
        let corridor = corridor_downward(a, aside, &mut rng);
        assert!(!corridor.horizontal_first);
        assert!(9 <= corridor.via && corridor.via <= 30);
    }
}

#[test]
fn full_room_fills_its_region() {
    let mut rng = rand::thread_rng();
    let region = Region { x: 10, y: 20, w: 8, h: 6 };
    assert_eq!(make_room(region, true, &mut rng), Rect { x1: 10, y1: 20, x2: 17, y2: 25 });
    for _ in 0..100 {
        let room = make_room(region, false, &mut rng);
        assert!(10 <= room.x1 && room.x2 <= 17 && 20 <= room.y1 && room.y2 <= 25);
        assert!(room.x2 - room.x1 >= 4 && room.y2 - room.y1 >= 4);
    }
}

#[test]
fn region_that_cannot_be_split_is_a_leaf() {
    let mut rng = rand::thread_rng();
    let region = Region { x: 3, y: 4, w: 9, h: 9 };
    assert!(matches!(grow(region, 10, true, &mut rng), Node::Leaf { .. }));
    assert!(matches!(grow(Region { x: 0, y: 0, w: 100, h: 100 }, 0, true, &mut rng), Node::Leaf { .. }));
    match grow(Region { x: 3, y: 4, w: 10, h: 9 }, 10, true, &mut rng) {
        Node::Split { first, second, .. } => {
            assert_eq!(first.region(), Region { x: 3, y: 4, w: 5, h: 9 });
            assert_eq!(second.region(), Region { x: 8, y: 4, w: 5, h: 9 });
        }
        Node::Leaf { .. } => panic!("a region of twice the least width is split"),
    }
    match grow(Region { x: 3, y: 4, w: 9, h: 11 }, 1, true, &mut rng) {
        Node::Split { first, second, .. } => {
            assert_eq!(first.region().h + second.region().h, 11);
            assert_eq!((first.region().w, second.region().w), (9, 9));
            assert!(first.region().h >= 5 && second.region().h >= 5);
            assert_eq!(second.region().y, 4 + first.region().h);
        }
        Node::Leaf { .. } => panic!("a region of twice the least height is split"),
    }
}

#[test]
fn partition_covers_the_map_with_regions_that_hold_their_rooms() {
    for full_rooms in [false, true] {
        let layout = generate_bsp(full_rooms);
        let mut found = Vec::new();
        leaves(&layout.tree, &mut found);
        assert!(depth_of(&layout.tree) <= 10);
        assert_eq!(layout.tree.region(), Region { x: 0, y: 0, w: 100, h: 100 });
        let mut covered = vec![vec![0; 100]; 100];
        for (region, room) in &found {
            assert!(region.w >= 5 && region.h >= 5);
            for x in region.x..region.x + region.w {
                for y in region.y..region.y + region.h {
                    covered[x as usize][y as usize] += 1;
                }
            }
            assert!(region.x <= room.x1 && room.x2 <= region.x + region.w - 1);
            assert!(region.y <= room.y1 && room.y2 <= region.y + region.h - 1);
            assert!(room.x1 + 2 <= room.x2 && room.y1 + 2 <= room.y2);
            if full_rooms {
                assert_eq!(
                    *room,
                    Rect { x1: region.x, y1: region.y, x2: region.x + region.w - 1, y2: region.y + region.h - 1 }
                );
            }
        }
        assert!(covered.iter().flatten().all(|count| *count == 1));
        let rooms: Vec<Rect> = found.iter().map(|(_, room)| *room).collect();
        assert_eq!(rooms, layout.rooms);
        assert!(found.len() > 1);
    }
}

#[test]
fn partitioned_rooms_keep_apart_and_are_joined() {
    for full_rooms in [false, true] {
        let layout = generate_bsp(full_rooms);
        assert!(layout.rooms.contains(&layout.start));
        for i in 0..layout.rooms.len() {
            for j in 0..layout.rooms.len() {
                if i != j {
                    assert!(!layout.rooms[i].intersects(&layout.rooms[j]));
                }
            }
        }
        let seen = bsp_flood(&layout.map, layout.start.center());
        for room in &layout.rooms {
            for x in room.x1 + 1..room.x2 {
                for y in room.y1 + 1..room.y2 {
                    assert!(seen[x as usize][y as usize]);
                }
            }
        }
        // every open tile belongs to the one connected level
        for (x, y) in open_tiles(&layout.map) {
            assert!(seen[x][y]);
            assert!(0 < x && x < 99 && 0 < y && y < 99);
        }
    }
}

#[test]
fn partition_draws_different_levels() {
    let mut starts = Vec::new();
    let mut counts = Vec::new();
    for _ in 0..8 {
        let layout = generate_bsp(false);
        starts.push((layout.start.x1, layout.start.y1, layout.start.x2, layout.start.y2));
        counts.push(layout.rooms.len());
    }
    starts.sort();
    starts.dedup();
    assert!(starts.len() > 1);
    assert!(counts.iter().all(|count| *count >= 2));
}
