use bytary::builtins::Builtin;
use bytary::convert::ConversionGraph;
use bytary::format::Format;

/// A small generator of numbers that gives the same run every time.
struct Numbers(u64);

impl Numbers {
    fn next(&mut self) -> u64 {
        self.0 = self
            .0
            .wrapping_mul(6364136223846793005)
            .wrapping_add(1442695040888963407);
        self.0 >> 33
    }
}

fn cheapest_by_hand(costs: &[[Option<u64>; 6]; 6]) -> [[Option<u64>; 6]; 6] {
    let mut best = [[None; 6]; 6];
    for a in 0..6 {
        for b in 0..6 {
            best[a][b] = costs[a][b];
        }
        best[a][a] = Some(0);
    }
    for k in 0..6 {
        for a in 0..6 {
            for b in 0..6 {
                if let (Some(first), Some(second)) = (best[a][k], best[k][b]) {
                    if best[a][b].map_or(true, |known| first + second < known) {
                        best[a][b] = Some(first + second);
                    }
                }
            }
        }
    }
    best
}

#[test]
fn shortest_paths_are_paths_of_the_least_cost() {
    let formats = Format::all();
    let mut numbers = Numbers(2024);
    for round in 0..300 {
        let mut graph = ConversionGraph::new();
        let mut costs = [[None; 6]; 6];
        let edges = numbers.next() % 20;
        for _ in 0..edges {
            let a = (numbers.next() % 6) as usize;
            let b = (numbers.next() % 6) as usize;
            let cost = match round % 3 {
                0 => 1,
                1 => (numbers.next() % 4) as u32,
                _ => u32::MAX - (numbers.next() % 3) as u32,
            };
            graph.add_direct(formats[a], formats[b], Builtin::BytesToHex, cost);
            costs[a][b] = Some(cost as u64);
        }
        let best = cheapest_by_hand(&costs);
        for a in 0..6 {
            for b in 0..6 {
                let found = graph.find_shortest_path(&formats[a], &formats[b]);
                assert_eq!(found.is_some(), best[a][b].is_some());
                assert_eq!(graph.can_convert(&formats[a], &formats[b]), best[a][b].is_some());
                assert_eq!(found, graph.find_shortest_path(&formats[a], &formats[b]));
                let Some(path) = found else { continue };
                assert_eq!(path[0], formats[a]);
                assert_eq!(path[path.len() - 1], formats[b]);
                let mut total = 0;
                for step in path.windows(2) {
                    total += costs[step[0].ordinal()][step[1].ordinal()].unwrap();
                }
                assert_eq!(Some(total), best[a][b]);
                for (i, format) in path.iter().enumerate() {
                    assert!(!path[..i].contains(format));
                }
                assert_eq!(graph.path_to_converters(&path).unwrap().len(), path.len() - 1);
            }
        }
    }
}
