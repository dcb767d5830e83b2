use string_art::kmeans::assign_pixels_to_centroids;
use string_art::kmeans::calculate_distance;
use string_art::kmeans::kmeans;
use string_art::kmeans::update_centroids;
use string_art::raster::Color;
use string_art::raster::Raster;

fn rgb(r: u8, g: u8, b: u8) -> Color {
    Color { r, g, b }
}

#[test]
fn distance_is_the_sum_of_squared_differences() {
    assert_eq!(calculate_distance(&rgb(1, 2, 3), &rgb(1, 2, 3)), 0);
    assert_eq!(calculate_distance(&rgb(0, 0, 0), &rgb(3, 4, 0)), 25);
}

#[test]
fn pixels_are_assigned_to_their_nearest_centroid() {
    let centroids = vec![rgb(0, 0, 0), rgb(255, 255, 255)];
    let img = Raster {
        width: 2,
        height: 2,
        pixels: vec![rgb(10, 10, 10), rgb(250, 250, 250), rgb(100, 100, 100), rgb(200, 200, 200)],
    };
    let assignments = assign_pixels_to_centroids(&centroids, &img);
    assert_eq!(assignments, vec![0, 1, 0, 1]);
}

#[test]
fn centroids_move_to_the_mean_of_their_pixels() {
    let mut centroids = vec![rgb(0, 0, 0), rgb(255, 255, 255)];
    let img = Raster {
        width: 2,
        height: 2,
        pixels: vec![rgb(10, 10, 10), rgb(250, 250, 250), rgb(20, 20, 20), rgb(200, 200, 200)],
    };
    let assignments = vec![0, 1, 0, 1];
    update_centroids(&mut centroids, &assignments, &img);
    // (10 + 20) / 2 and (250 + 200) / 2
    assert_eq!(centroids, vec![rgb(15, 15, 15), rgb(225, 225, 225)]);
}

#[test]
fn a_centroid_with_no_pixels_stays_put() {
    let mut centroids = vec![rgb(0, 0, 0), rgb(9, 9, 9)];
    let img = Raster { width: 1, height: 1, pixels: vec![rgb(10, 10, 10)] };
    let assignments = vec![0];
    update_centroids(&mut centroids, &assignments, &img);
    assert_eq!(centroids, vec![rgb(10, 10, 10), rgb(9, 9, 9)]);
}

#[test]
fn kmeans_on_a_uniform_image_returns_its_color() {
    let img = Raster { width: 1, height: 1, pixels: vec![rgb(5, 6, 7)] };
    let palette = kmeans(1, &img);
    assert_eq!(palette, vec![rgb(5, 6, 7)]);
}

#[test]
fn kmeans_keeps_the_requested_palette_size() {
    let mut pixels = Vec::new();
    for i in 0..16u32 {
        let v = (i * 16) as u8;
        pixels.push(rgb(v, v, v));
    }
    let img = Raster { width: 4, height: 4, pixels };
    let palette = kmeans(3, &img);
    assert_eq!(palette.len(), 3);
}
