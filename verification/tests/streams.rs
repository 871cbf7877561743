use baseline_jpeg::image::Image;

const GRADIENT_STREAM: [u8; 479] = [
    255, 216, 255, 219, 0, 67, 0, 1, 1, 1, 1, 1, 1, 1, 1, 1,
    1, 1, 1, 1, 1, 1, 1, 1, 1, 1, 1, 1, 1, 1, 1, 1,
    1, 1, 1, 1, 1, 1, 1, 1, 1, 1, 1, 1, 1, 1, 1, 1,
    1, 1, 1, 1, 1, 1, 1, 1, 1, 1, 1, 1, 1, 1, 1, 1,
    1, 1, 1, 1, 1, 1, 1, 255, 192, 0, 11, 8, 0, 16, 0, 16,
    1, 1, 17, 0, 255, 196, 0, 210, 0, 0, 1, 5, 1, 1, 1, 1,
    1, 1, 0, 0, 0, 0, 0, 0, 0, 0, 1, 2, 3, 4, 5, 6,
    7, 8, 9, 10, 11, 16, 0, 2, 1, 3, 3, 2, 4, 3, 5, 5,
    4, 4, 0, 0, 1, 125, 1, 2, 3, 0, 4, 17, 5, 18, 33, 49,
    65, 6, 19, 81, 97, 7, 34, 113, 20, 50, 129, 145, 161, 8, 35, 66,
    177, 193, 21, 82, 209, 240, 36, 51, 98, 114, 130, 9, 10, 22, 23, 24,
    25, 26, 37, 38, 39, 40, 41, 42, 52, 53, 54, 55, 56, 57, 58, 67,
    68, 69, 70, 71, 72, 73, 74, 83, 84, 85, 86, 87, 88, 89, 90, 99,
    100, 101, 102, 103, 104, 105, 106, 115, 116, 117, 118, 119, 120, 121, 122, 131,
    132, 133, 134, 135, 136, 137, 138, 146, 147, 148, 149, 150, 151, 152, 153, 154,
    162, 163, 164, 165, 166, 167, 168, 169, 170, 178, 179, 180, 181, 182, 183, 184,
    185, 186, 194, 195, 196, 197, 198, 199, 200, 201, 202, 210, 211, 212, 213, 214,
    215, 216, 217, 218, 225, 226, 227, 228, 229, 230, 231, 232, 233, 234, 241, 242,
    243, 244, 245, 246, 247, 248, 249, 250, 255, 218, 0, 8, 1, 1, 0, 0,
    63, 0, 252, 47, 253, 132, 191, 103, 255, 0, 249, 3, 127, 161, 127, 207,
    15, 249, 103, 254, 239, 181, 127, 104, 31, 176, 151, 236, 255, 0, 255, 0,
    32, 111, 244, 47, 249, 225, 255, 0, 44, 255, 0, 221, 246, 175, 199, 255,
    0, 216, 75, 246, 127, 255, 0, 144, 55, 250, 23, 252, 240, 255, 0, 150,
    127, 238, 251, 87, 234, 7, 252, 21, 107, 246, 176, 255, 0, 135, 113, 255,
    0, 193, 56, 188, 73, 255, 0, 8, 6, 191, 255, 0, 8, 255, 0, 237,
    55, 251, 80, 253, 175, 224, 15, 236, 255, 0, 253, 145, 172, 255, 0, 101,
    120, 199, 194, 223, 240, 144, 105, 111, 255, 0, 11, 91, 227, 86, 137, 253,
    139, 227, 191, 3, 252, 64, 209, 63, 225, 82, 124, 63, 184, 188, 255, 0,
    132, 91, 226, 63, 130, 191, 225, 32, 255, 0, 132, 11, 227, 183, 140, 62,
    5, 255, 0, 194, 73, 163, 77, 162, 120, 130, 92, 255, 0, 255, 217,
];

const GRADIENT_PIXELS: [u8; 256] = [
    0, 13, 26, 39, 52, 65, 78, 91, 104, 117, 130, 143, 156, 169, 182, 195,
    7, 20, 33, 46, 59, 72, 85, 98, 111, 124, 137, 150, 163, 176, 189, 202,
    14, 27, 40, 53, 66, 79, 92, 105, 118, 131, 144, 157, 170, 183, 196, 209,
    21, 34, 47, 60, 73, 86, 99, 112, 125, 138, 151, 164, 177, 190, 203, 216,
    28, 41, 54, 67, 80, 93, 106, 119, 132, 145, 158, 171, 184, 197, 210, 223,
    35, 48, 61, 74, 87, 100, 113, 126, 139, 152, 165, 178, 191, 204, 217, 230,
    42, 55, 68, 81, 94, 107, 120, 133, 146, 159, 172, 185, 198, 211, 224, 237,
    49, 62, 75, 88, 101, 114, 127, 140, 153, 166, 179, 192, 205, 218, 231, 244,
    56, 69, 82, 95, 108, 121, 134, 147, 160, 173, 186, 199, 212, 225, 238, 251,
    63, 76, 89, 102, 115, 128, 141, 154, 167, 180, 193, 206, 219, 232, 245, 3,
    70, 83, 96, 109, 122, 135, 148, 161, 174, 187, 200, 213, 226, 239, 252, 9,
    77, 90, 103, 116, 129, 142, 155, 168, 181, 194, 207, 220, 233, 246, 3, 16,
    84, 97, 110, 123, 136, 149, 162, 175, 188, 201, 214, 227, 240, 253, 10, 23,
    91, 104, 117, 130, 143, 156, 169, 182, 195, 208, 221, 234, 247, 4, 18, 30,
    98, 111, 124, 137, 150, 163, 176, 189, 202, 215, 228, 241, 254, 11, 23, 37,
    105, 118, 131, 144, 157, 170, 183, 196, 209, 222, 234, 248, 5, 18, 31, 44,
];

const SUBSAMPLED_STREAM: [u8; 421] = [
    255, 216, 255, 219, 0, 67, 0, 16, 11, 12, 14, 12, 10, 16, 14, 13,
    14, 18, 17, 16, 19, 24, 40, 26, 24, 22, 22, 24, 49, 35, 37, 29,
    40, 58, 51, 61, 60, 57, 51, 56, 55, 64, 72, 92, 78, 64, 68, 87,
    69, 55, 56, 80, 109, 81, 87, 95, 98, 103, 104, 103, 62, 77, 113, 121,
    112, 100, 120, 92, 101, 103, 99, 255, 219, 0, 67, 1, 3, 3, 3, 3,
    3, 3, 3, 3, 3, 3, 3, 3, 3, 3, 3, 3, 3, 3, 3, 3,
    3, 3, 3, 3, 3, 3, 3, 3, 3, 3, 3, 3, 3, 3, 3, 3,
    3, 3, 3, 3, 3, 3, 3, 3, 3, 3, 3, 3, 3, 3, 3, 3,
    3, 3, 3, 3, 3, 3, 3, 3, 3, 3, 3, 3, 255, 192, 0, 17,
    8, 0, 16, 0, 16, 3, 1, 34, 0, 2, 17, 1, 3, 17, 1, 255,
    196, 0, 210, 0, 0, 1, 5, 1, 1, 1, 1, 1, 1, 0, 0, 0,
    0, 0, 0, 0, 0, 1, 2, 3, 4, 5, 6, 7, 8, 9, 10, 11,
    16, 0, 2, 1, 3, 3, 2, 4, 3, 5, 5, 4, 4, 0, 0, 1,
    125, 1, 2, 3, 0, 4, 17, 5, 18, 33, 49, 65, 6, 19, 81, 97,
    7, 34, 113, 20, 50, 129, 145, 161, 8, 35, 66, 177, 193, 21, 82, 209,
    240, 36, 51, 98, 114, 130, 9, 10, 22, 23, 24, 25, 26, 37, 38, 39,
    40, 41, 42, 52, 53, 54, 55, 56, 57, 58, 67, 68, 69, 70, 71, 72,
    73, 74, 83, 84, 85, 86, 87, 88, 89, 90, 99, 100, 101, 102, 103, 104,
    105, 106, 115, 116, 117, 118, 119, 120, 121, 122, 131, 132, 133, 134, 135, 136,
    137, 138, 146, 147, 148, 149, 150, 151, 152, 153, 154, 162, 163, 164, 165, 166,
    167, 168, 169, 170, 178, 179, 180, 181, 182, 183, 184, 185, 186, 194, 195, 196,
    197, 198, 199, 200, 201, 202, 210, 211, 212, 213, 214, 215, 216, 217, 218, 225,
    226, 227, 228, 229, 230, 231, 232, 233, 234, 241, 242, 243, 244, 245, 246, 247,
    248, 249, 250, 255, 218, 0, 12, 3, 1, 0, 2, 0, 3, 0, 0, 63,
    0, 200, 176, 139, 165, 116, 150, 17, 116, 172, 123, 8, 186, 87, 73, 97,
    23, 74, 230, 244, 27, 63, 185, 199, 165, 123, 175, 138, 230, 255, 0, 89,
    207, 173, 127, 255, 217,
];

const SUBSAMPLED_PIXELS: [u8; 768] = [
    142, 2, 0, 149, 9, 0, 149, 23, 0, 158, 32, 9, 157, 44, 26, 166,
    53, 35, 167, 66, 54, 175, 74, 62, 175, 88, 81, 182, 95, 88, 182, 108,
    107, 191, 117, 116, 189, 130, 134, 198, 139, 143, 199, 152, 162, 207, 160, 170,
    143, 3, 0, 150, 10, 0, 151, 25, 2, 160, 34, 11, 158, 45, 27, 168,
    55, 37, 169, 68, 56, 176, 75, 63, 176, 89, 82, 183, 96, 89, 184, 110,
    109, 193, 119, 118, 190, 131, 135, 200, 141, 145, 201, 154, 164, 208, 161, 171,
    145, 7, 0, 152, 14, 0, 153, 28, 8, 162, 37, 17, 160, 48, 34, 170,
    58, 44, 170, 72, 63, 177, 79, 70, 177, 92, 89, 184, 99, 96, 185, 113,
    116, 194, 122, 125, 191, 134, 141, 201, 144, 151, 203, 157, 170, 210, 164, 177,
    149, 11, 0, 156, 18, 0, 156, 31, 11, 166, 41, 21, 164, 52, 38, 173,
    61, 47, 174, 76, 67, 181, 83, 74, 181, 96, 93, 188, 103, 100, 188, 116,
    119, 198, 126, 129, 195, 138, 145, 204, 147, 154, 207, 161, 174, 214, 168, 181,
    151, 15, 0, 158, 22, 0, 159, 36, 20, 168, 45, 29, 167, 56, 45, 177,
    66, 55, 177, 80, 74, 184, 87, 81, 182, 101, 100, 189, 108, 107, 191, 122,
    127, 200, 131, 136, 198, 142, 153, 208, 152, 163, 209, 165, 182, 216, 172, 189,
    155, 19, 0, 162, 26, 4, 162, 39, 23, 172, 49, 33, 171, 60, 49, 180,
    69, 58, 181, 84, 78, 188, 91, 85, 186, 105, 104, 193, 112, 111, 194, 125,
    130, 204, 135, 140, 202, 146, 157, 211, 155, 166, 213, 169, 186, 220, 176, 193,
    157, 22, 3, 164, 29, 10, 164, 42, 29, 174, 52, 39, 172, 63, 56, 181,
    72, 65, 182, 87, 85, 189, 94, 92, 188, 108, 111, 195, 115, 118, 197, 127,
    137, 207, 137, 147, 203, 149, 163, 212, 158, 172, 215, 172, 192, 222, 179, 199,
    158, 23, 4, 166, 31, 12, 166, 44, 31, 175, 53, 40, 174, 65, 58, 183,
    74, 67, 183, 88, 86, 190, 95, 93, 189, 109, 112, 197, 117, 120, 199, 129,
    139, 208, 138, 148, 205, 151, 165, 214, 160, 174, 216, 173, 193, 223, 180, 200,
    160, 27, 12, 167, 34, 19, 169, 46, 38, 178, 55, 47, 176, 68, 65, 185,
    77, 74, 185, 91, 92, 193, 99, 100, 193, 112, 119, 200, 119, 126, 200, 132,
    145, 209, 141, 154, 208, 153, 172, 217, 162, 181, 218, 176, 200, 226, 184, 208,
    161, 28, 13, 168, 35, 20, 171, 48, 40, 180, 57, 49, 177, 69, 66, 187,
    79, 76, 187, 93, 94, 194, 100, 101, 194, 113, 120, 201, 120, 127, 202, 134,
    147, 211, 143, 156, 209, 154, 173, 219, 164, 183, 220, 178, 202, 227, 185, 209,
    163, 31, 19, 170, 38, 26, 173, 51, 46, 182, 60, 55, 178, 72, 72, 188,
    82, 82, 188, 96, 101, 195, 103, 108, 196, 116, 127, 203, 123, 134, 204, 137,
    154, 213, 146, 163, 211, 157, 180, 221, 167, 190, 221, 181, 208, 228, 188, 215,
    167, 35, 23, 174, 42, 30, 176, 54, 49, 186, 64, 59, 182, 76, 76, 191,
    85, 85, 192, 100, 105, 199, 107, 112, 200, 120, 131, 207, 127, 138, 207, 140,
    157, 217, 150, 167, 215, 161, 184, 224, 170, 193, 225, 185, 212, 232, 192, 219,
    170, 39, 31, 177, 46, 38, 178, 60, 58, 187, 69, 67, 185, 80, 84, 195,
    90, 94, 195, 104, 113, 202, 111, 120, 202, 124, 138, 209, 131, 145, 210, 145,
    165, 219, 154, 174, 216, 166, 191, 226, 176, 201, 228, 189, 220, 235, 196, 227,
    174, 43, 35, 181, 50, 42, 181, 63, 61, 191, 73, 71, 189, 84, 88, 198,
    93, 97, 199, 108, 117, 206, 115, 124, 206, 128, 142, 213, 135, 149, 213, 148,
    168, 223, 158, 178, 220, 170, 195, 229, 179, 204, 232, 193, 224, 239, 200, 231,
    175, 46, 41, 182, 53, 48, 182, 66, 67, 192, 76, 77, 191, 87, 94, 200,
    96, 103, 201, 111, 123, 208, 118, 130, 208, 131, 149, 215, 138, 156, 215, 151,
    175, 225, 161, 185, 222, 173, 202, 231, 182, 211, 233, 196, 229, 240, 203, 236,
    176, 47, 42, 184, 55, 50, 184, 68, 69, 193, 77, 78, 193, 89, 96, 202,
    98, 105, 202, 112, 124, 209, 119, 131, 209, 132, 150, 217, 140, 158, 217, 153,
    177, 226, 162, 186, 224, 175, 204, 233, 184, 213, 234, 197, 230, 241, 204, 237,
];

const CROPPED_STREAM: [u8; 454] = [
    255, 216, 255, 219, 0, 131, 18, 0, 2, 0, 2, 0, 2, 0, 2, 0,
    2, 0, 2, 0, 2, 0, 2, 0, 2, 0, 2, 0, 2, 0, 2, 0,
    2, 0, 2, 0, 2, 0, 2, 0, 2, 0, 2, 0, 2, 0, 2, 0,
    2, 0, 2, 0, 2, 0, 2, 0, 2, 0, 2, 0, 2, 0, 2, 0,
    2, 0, 2, 0, 2, 0, 2, 0, 2, 0, 2, 0, 2, 0, 2, 0,
    2, 0, 2, 0, 2, 0, 2, 0, 2, 0, 2, 0, 2, 0, 2, 0,
    2, 0, 2, 0, 2, 0, 2, 0, 2, 0, 2, 0, 2, 0, 2, 0,
    2, 0, 2, 0, 2, 0, 2, 0, 2, 0, 2, 0, 2, 0, 2, 0,
    2, 0, 2, 0, 2, 0, 2, 255, 192, 0, 11, 8, 0, 7, 0, 10,
    1, 7, 17, 2, 255, 196, 0, 210, 0, 0, 1, 5, 1, 1, 1, 1,
    1, 1, 0, 0, 0, 0, 0, 0, 0, 0, 1, 2, 3, 4, 5, 6,
    7, 8, 9, 10, 11, 16, 0, 2, 1, 3, 3, 2, 4, 3, 5, 5,
    4, 4, 0, 0, 1, 125, 1, 2, 3, 0, 4, 17, 5, 18, 33, 49,
    65, 6, 19, 81, 97, 7, 34, 113, 20, 50, 129, 145, 161, 8, 35, 66,
    177, 193, 21, 82, 209, 240, 36, 51, 98, 114, 130, 9, 10, 22, 23, 24,
    25, 26, 37, 38, 39, 40, 41, 42, 52, 53, 54, 55, 56, 57, 58, 67,
    68, 69, 70, 71, 72, 73, 74, 83, 84, 85, 86, 87, 88, 89, 90, 99,
    100, 101, 102, 103, 104, 105, 106, 115, 116, 117, 118, 119, 120, 121, 122, 131,
    132, 133, 134, 135, 136, 137, 138, 146, 147, 148, 149, 150, 151, 152, 153, 154,
    162, 163, 164, 165, 166, 167, 168, 169, 170, 178, 179, 180, 181, 182, 183, 184,
    185, 186, 194, 195, 196, 197, 198, 199, 200, 201, 202, 210, 211, 212, 213, 214,
    215, 216, 217, 218, 225, 226, 227, 228, 229, 230, 231, 232, 233, 234, 241, 242,
    243, 244, 245, 246, 247, 248, 249, 250, 255, 218, 0, 8, 1, 7, 0, 0,
    63, 0, 250, 79, 246, 159, 241, 237, 143, 136, 63, 180, 127, 176, 117, 43,
    77, 111, 127, 155, 179, 251, 34, 234, 29, 75, 126, 115, 141, 191, 99, 121,
    183, 103, 182, 51, 154, 248, 231, 225, 250, 222, 167, 132, 244, 241, 168, 90,
    221, 89, 93, 253, 167, 89, 105, 109, 175, 32, 150, 218, 230, 53, 125, 115,
    82, 104, 75, 195, 58, 36, 168, 37, 132, 199, 44, 101, 148, 7, 137, 210,
    69, 202, 50, 147, 255, 217,
];

const CROPPED_PIXELS: [u8; 70] = [
    255, 235, 215, 195, 175, 156, 135, 115, 95, 75, 250, 231, 210, 190, 170, 150,
    130, 111, 90, 69, 245, 225, 205, 185, 164, 145, 125, 105, 85, 65, 240, 220,
    200, 180, 160, 140, 120, 100, 81, 59, 235, 215, 194, 174, 155, 136, 115, 95,
    75, 54, 231, 210, 190, 171, 150, 130, 110, 90, 70, 50, 225, 205, 184, 165,
    145, 125, 105, 85, 65, 45,
];

const TILED_STREAM: [u8; 528] = [
    255, 216, 255, 219, 0, 67, 0, 4, 4, 4, 4, 4, 4, 4, 4, 4,
    4, 4, 4, 4, 4, 4, 4, 4, 4, 4, 4, 4, 4, 4, 4, 4,
    4, 4, 4, 4, 4, 4, 4, 4, 4, 4, 4, 4, 4, 4, 4, 4,
    4, 4, 4, 4, 4, 4, 4, 4, 4, 4, 4, 4, 4, 4, 4, 4,
    4, 4, 4, 4, 4, 4, 4, 255, 192, 0, 17, 8, 0, 8, 0, 24,
    3, 1, 33, 0, 2, 17, 0, 3, 17, 0, 255, 196, 0, 210, 0, 0,
    1, 5, 1, 1, 1, 1, 1, 1, 0, 0, 0, 0, 0, 0, 0, 0,
    1, 2, 3, 4, 5, 6, 7, 8, 9, 10, 11, 16, 0, 2, 1, 3,
    3, 2, 4, 3, 5, 5, 4, 4, 0, 0, 1, 125, 1, 2, 3, 0,
    4, 17, 5, 18, 33, 49, 65, 6, 19, 81, 97, 7, 34, 113, 20, 50,
    129, 145, 161, 8, 35, 66, 177, 193, 21, 82, 209, 240, 36, 51, 98, 114,
    130, 9, 10, 22, 23, 24, 25, 26, 37, 38, 39, 40, 41, 42, 52, 53,
    54, 55, 56, 57, 58, 67, 68, 69, 70, 71, 72, 73, 74, 83, 84, 85,
    86, 87, 88, 89, 90, 99, 100, 101, 102, 103, 104, 105, 106, 115, 116, 117,
    118, 119, 120, 121, 122, 131, 132, 133, 134, 135, 136, 137, 138, 146, 147, 148,
    149, 150, 151, 152, 153, 154, 162, 163, 164, 165, 166, 167, 168, 169, 170, 178,
    179, 180, 181, 182, 183, 184, 185, 186, 194, 195, 196, 197, 198, 199, 200, 201,
    202, 210, 211, 212, 213, 214, 215, 216, 217, 218, 225, 226, 227, 228, 229, 230,
    231, 232, 233, 234, 241, 242, 243, 244, 245, 246, 247, 248, 249, 250, 255, 218,
    0, 12, 3, 1, 0, 2, 0, 3, 0, 0, 63, 0, 79, 249, 61, 31,
    250, 166, 191, 240, 173, 127, 238, 113, 254, 218, 255, 0, 132, 199, 255, 0,
    9, 95, 236, 239, 236, 239, 248, 69, 127, 233, 255, 0, 237, 159, 111, 255,
    0, 151, 95, 178, 255, 0, 164, 31, 242, 122, 63, 245, 77, 127, 225, 90,
    255, 0, 220, 227, 253, 181, 255, 0, 9, 143, 254, 18, 191, 217, 223, 217,
    223, 240, 138, 255, 0, 211, 255, 0, 219, 62, 223, 255, 0, 46, 191, 101,
    255, 0, 72, 201, 176, 234, 63, 222, 111, 253, 2, 172, 127, 105, 123, 254,
    159, 253, 133, 31, 242, 122, 63, 245, 77, 127, 225, 90, 255, 0, 220, 227,
    253, 181, 255, 0, 9, 143, 254, 18, 191, 217, 223, 217, 223, 240, 138, 255,
    0, 211, 255, 0, 219, 62, 223, 255, 0, 46, 191, 101, 255, 0, 72, 63,
    228, 244, 127, 234, 154, 255, 0, 194, 181, 255, 0, 185, 199, 251, 107, 254,
    19, 31, 252, 37, 127, 179, 191, 179, 191, 225, 21, 255, 0, 167, 255, 0,
    182, 125, 191, 254, 93, 126, 203, 254, 145, 211, 159, 249, 7, 222, 127, 215,
    156, 159, 250, 34, 74, 63, 180, 189, 255, 0, 79, 254, 194, 191, 255, 217,
];

const TILED_PIXELS: [u8; 576] = [
    255, 249, 219, 255, 249, 219, 255, 249, 219, 255, 250, 220, 22, 0, 0, 23,
    0, 0, 23, 0, 0, 23, 0, 0, 255, 246, 238, 255, 246, 238, 255, 246,
    238, 255, 247, 239, 22, 0, 0, 23, 0, 1, 23, 0, 1, 23, 0, 1,
    255, 243, 254, 255, 243, 254, 255, 239, 255, 255, 240, 255, 22, 0, 16, 23,
    0, 17, 23, 0, 19, 23, 0, 19, 255, 249, 219, 255, 250, 220, 255, 250,
    220, 255, 250, 220, 22, 0, 0, 22, 0, 0, 22, 0, 0, 23, 0, 0,
    255, 246, 238, 255, 247, 239, 255, 247, 239, 255, 247, 239, 22, 0, 0, 22,
    0, 0, 22, 0, 0, 23, 0, 1, 255, 243, 254, 255, 244, 255, 255, 240,
    255, 255, 240, 255, 22, 0, 16, 22, 0, 16, 22, 0, 18, 23, 0, 19,
    255, 255, 219, 255, 255, 220, 255, 255, 219, 255, 255, 220, 11, 1, 0, 12,
    2, 0, 11, 0, 0, 12, 0, 0, 255, 251, 238, 255, 252, 239, 255, 251,
    238, 255, 252, 239, 11, 0, 0, 12, 0, 1, 11, 0, 0, 12, 0, 1,
    255, 248, 254, 255, 249, 255, 255, 245, 255, 255, 246, 255, 11, 0, 16, 12,
    0, 17, 11, 0, 18, 12, 0, 19, 255, 255, 220, 255, 255, 220, 255, 255,
    220, 255, 255, 220, 11, 1, 0, 11, 1, 0, 11, 0, 0, 11, 0, 0,
    255, 252, 239, 255, 252, 239, 255, 252, 239, 255, 252, 239, 11, 0, 0, 11,
    0, 0, 11, 0, 0, 11, 0, 0, 255, 249, 255, 255, 249, 255, 255, 246,
    255, 255, 246, 255, 11, 0, 16, 11, 0, 16, 11, 0, 18, 11, 0, 18,
    0, 7, 0, 0, 7, 0, 0, 7, 0, 0, 7, 0, 255, 255, 221, 255,
    255, 221, 255, 255, 237, 255, 255, 237, 0, 3, 0, 0, 3, 0, 0, 3,
    0, 0, 3, 0, 255, 255, 255, 255, 255, 255, 255, 255, 255, 255, 255, 255,
    0, 0, 0, 0, 0, 0, 0, 0, 16, 0, 0, 16, 255, 252, 255, 255,
    252, 255, 255, 252, 255, 255, 252, 255, 1, 8, 0, 0, 7, 0, 1, 8,
    0, 0, 7, 0, 255, 255, 221, 254, 255, 220, 255, 255, 237, 254, 255, 236,
    1, 4, 0, 0, 3, 0, 1, 4, 0, 0, 3, 0, 255, 255, 255, 254,
    254, 254, 255, 255, 255, 254, 254, 254, 1, 1, 1, 0, 0, 0, 1, 0,
    17, 0, 0, 16, 255, 252, 255, 254, 251, 255, 255, 252, 255, 254, 251, 255,
    0, 14, 0, 0, 13, 0, 0, 13, 0, 0, 13, 0, 244, 255, 221, 244,
    255, 221, 244, 255, 237, 243, 255, 236, 0, 10, 0, 0, 9, 0, 0, 9,
    0, 0, 9, 0, 244, 255, 255, 244, 255, 255, 244, 255, 255, 243, 255, 254,
    0, 7, 1, 0, 6, 0, 0, 3, 16, 0, 3, 16, 244, 255, 255, 244,
    255, 255, 244, 255, 255, 243, 255, 255, 0, 14, 0, 0, 14, 0, 0, 14,
    0, 0, 13, 0, 244, 255, 221, 243, 255, 220, 243, 255, 236, 243, 255, 236,
    0, 10, 0, 0, 10, 0, 0, 10, 0, 0, 9, 0, 244, 255, 255, 243,
    255, 254, 243, 255, 254, 243, 255, 254, 0, 7, 1, 0, 7, 1, 0, 4,
    17, 0, 3, 16, 244, 255, 255, 243, 255, 255, 243, 255, 255, 243, 255, 255,
];

fn largest_difference(image: &Image, expected: &[u8]) -> u8 {
    let samples = image.samples();
    assert_eq!(samples.len(), expected.len());
    let mut worst = 0u8;
    for (got, want) in samples.iter().zip(expected.iter()) {
        let difference = if got > want { got - want } else { want - got };
        if difference > worst {
            worst = difference;
        }
    }
    worst
}

#[test]
fn grey_gradient_decodes_to_its_pixels() {
    let image = Image::from_jpeg(&GRADIENT_STREAM).unwrap();
    assert_eq!((image.width(), image.height(), image.channels()), (16, 16, 1));
    assert!(largest_difference(&image, &GRADIENT_PIXELS) <= 1);
    assert_eq!(image.get(1, 0, 0), Some(13));
    assert_eq!(image.get(0, 1, 0), Some(7));
}

#[test]
fn subsampled_colour_image_decodes_to_its_pixels() {
    let image = Image::from_jpeg(&SUBSAMPLED_STREAM).unwrap();
    assert_eq!((image.width(), image.height(), image.channels()), (16, 16, 3));
    assert!(largest_difference(&image, &SUBSAMPLED_PIXELS) <= 2);
}

#[test]
fn cropped_grey_image_with_wide_table_decodes_to_its_pixels() {
    let image = Image::from_jpeg(&CROPPED_STREAM).unwrap();
    assert_eq!((image.width(), image.height(), image.channels()), (10, 7, 1));
    assert!(largest_difference(&image, &CROPPED_PIXELS) <= 1);
}

#[test]
fn tiled_colour_image_decodes_to_its_pixels() {
    let image = Image::from_jpeg(&TILED_STREAM).unwrap();
    assert_eq!((image.width(), image.height(), image.channels()), (24, 8, 3));
    assert!(largest_difference(&image, &TILED_PIXELS) <= 2);
}
